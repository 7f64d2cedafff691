//! The virtual-filesystem core: three tables — directories, files and
//! file kinds — and the primitive operations on them. The tables are
//! held as rows in memory; a shell that persists them mirrors each
//! successful operation onto its database. Every operation's effect on
//! the tables is stated against the ghost view `FsView` and verified.

use vstd::prelude::*;
use vstd::string::*;

use crate::path::{
    is_dir_path, is_file_name, norm_comps, join_dir, norm_dir_path, dir_rename_path,
    rewrite_prefix, normalize_dir, normalize_file, rename_dir_path, str_eq, str_has_prefix,
    replace_prefix,
};

verus! {

/// The closed set of file kinds: a pointer to a host file, inline
/// text, or a shell command whose output is the body.
#[derive(Clone, Copy, Debug, PartialEq, Eq, Structural)]
pub enum FileType {
    File,
    Text,
    Exec,
}

/// The kind string stored in the kind column.
pub open spec fn kind_str(k: FileType) -> Seq<char> {
    match k {
        FileType::File => seq!['f', 'i', 'l', 'e'],
        FileType::Text => seq!['t', 'e', 'x', 't'],
        FileType::Exec => seq!['e', 'x', 'e', 'c'],
    }
}

/// The errors the core surfaces.
#[derive(Debug)]
pub enum FSError {
    /// The path has no reading as a file.
    PathIsNotAFile(String),
    /// The path has no reading as a directory.
    PathIsNotADir(String),
    /// Resolution found neither a file row nor a directory row.
    DoesNotExist(String),
    /// A kind string did not match the closed set.
    InvalidType(String),
    /// An underlying storage failure, described opaquely.
    Storage(String),
}

impl FileType {
    /// The kind string of this kind.
    pub fn to_string(&self) -> (r: String)
        ensures
            r@ == kind_str(*self),
    {
        proof {
            reveal_strlit("file");
            reveal_strlit("text");
            reveal_strlit("exec");
            assert("file"@ =~= seq!['f', 'i', 'l', 'e']);
            assert("text"@ =~= seq!['t', 'e', 'x', 't']);
            assert("exec"@ =~= seq!['e', 'x', 'e', 'c']);
        }
        match self {
            FileType::File => "file".to_owned(),
            FileType::Text => "text".to_owned(),
            FileType::Exec => "exec".to_owned(),
        }
    }

    /// Parses a kind string; exactly the three kind strings parse.
    pub fn from_str(s: &str) -> (r: Result<FileType, FSError>)
        ensures
            r is Ok <==> (s@ == kind_str(FileType::File) || s@ == kind_str(FileType::Text)
                || s@ == kind_str(FileType::Exec)),
            r matches Ok(k) ==> s@ == kind_str(k),
            r matches Err(e) ==> e matches FSError::InvalidType(t) && t@ == s@,
    {
        proof {
            reveal_strlit("file");
            reveal_strlit("text");
            reveal_strlit("exec");
            assert("file"@ =~= seq!['f', 'i', 'l', 'e']);
            assert("text"@ =~= seq!['t', 'e', 'x', 't']);
            assert("exec"@ =~= seq!['e', 'x', 'e', 'c']);
        }
        if str_eq(s, "file") {
            Ok(FileType::File)
        } else if str_eq(s, "text") {
            Ok(FileType::Text)
        } else if str_eq(s, "exec") {
            Ok(FileType::Exec)
        } else {
            Err(FSError::InvalidType(s.to_owned()))
        }
    }
}

/// One row of the file table.
#[derive(Debug)]
pub struct FileRow {
    pub id: u64,
    pub name: String,
    pub kind: FileType,
    pub data: String,
    pub directory: String,
}

/// One row of the directory table.
#[derive(Debug)]
pub struct DirRow {
    pub id: u64,
    pub path: String,
}

/// The mathematical content of a file row.
pub ghost struct FileRec {
    pub id: int,
    pub name: Seq<char>,
    pub kind: FileType,
    pub data: Seq<char>,
    pub directory: Seq<char>,
}

/// The mathematical content of a directory row.
pub ghost struct DirRec {
    pub id: int,
    pub path: Seq<char>,
}

impl View for FileRow {
    type V = FileRec;

    open spec fn view(&self) -> FileRec {
        FileRec {
            id: self.id as int,
            name: self.name@,
            kind: self.kind,
            data: self.data@,
            directory: self.directory@,
        }
    }
}

impl View for DirRow {
    type V = DirRec;

    open spec fn view(&self) -> DirRec {
        DirRec { id: self.id as int, path: self.path@ }
    }
}

impl FileRow {
    /// A field-by-field copy; the copy carries the same row.
    pub fn duplicate(&self) -> (r: FileRow)
        ensures
            r@ == self@,
    {
        FileRow {
            id: self.id,
            name: self.name.clone(),
            kind: self.kind,
            data: self.data.clone(),
            directory: self.directory.clone(),
        }
    }
}

impl DirRow {
    /// A field-by-field copy; the copy carries the same row.
    pub fn duplicate(&self) -> (r: DirRow)
        ensures
            r@ == self@,
    {
        DirRow { id: self.id, path: self.path.clone() }
    }
}

/// The whole state of the tables, as mathematics: the two row lists
/// and the next fresh id of each.
#[verifier::ext_equal]
pub ghost struct FsView {
    pub dirs: Seq<DirRec>,
    pub files: Seq<FileRec>,
    pub next_dir_id: int,
    pub next_file_id: int,
}

/// The views of a list of file rows.
pub open spec fn file_views(rows: Seq<FileRow>) -> Seq<FileRec> {
    rows.map_values(|r: FileRow| r@)
}

/// The views of a list of directory rows.
pub open spec fn dir_views(rows: Seq<DirRow>) -> Seq<DirRec> {
    rows.map_values(|r: DirRow| r@)
}

/// The root path `/`.
pub open spec fn root_path() -> Seq<char> {
    seq!['/']
}

/// Whether a directory row with path `p` is present.
pub open spec fn has_dir(dirs: Seq<DirRec>, p: Seq<char>) -> bool {
    exists|i: int| 0 <= i < dirs.len() && dirs[i].path == p
}

/// The index of the directory row with path `p`.
pub open spec fn dir_index(dirs: Seq<DirRec>, p: Seq<char>) -> int {
    choose|i: int| 0 <= i < dirs.len() && dirs[i].path == p
}

/// Whether a file row keyed `(directory, name)` is present.
pub open spec fn has_file(files: Seq<FileRec>, d: Seq<char>, n: Seq<char>) -> bool {
    exists|i: int| 0 <= i < files.len() && files[i].directory == d && files[i].name == n
}

/// The index of the file row keyed `(directory, name)`.
pub open spec fn file_index(files: Seq<FileRec>, d: Seq<char>, n: Seq<char>) -> int {
    choose|i: int| 0 <= i < files.len() && files[i].directory == d && files[i].name == n
}

/// The file row keyed `(directory, name)`.
pub open spec fn file_at(files: Seq<FileRec>, d: Seq<char>, n: Seq<char>) -> FileRec {
    files[file_index(files, d, n)]
}

/// When creating a file row succeeds: its directory row exists, the
/// `(name, directory)` key is free, and a fresh id is available.
pub open spec fn file_mk_ok(v: FsView, d: Seq<char>, n: Seq<char>) -> bool {
    &&& has_dir(v.dirs, d)
    &&& !has_file(v.files, d, n)
    &&& v.next_file_id < i64::MAX as int
}

/// The tables after creating a file row.
pub open spec fn file_mk_tr(v: FsView, d: Seq<char>, n: Seq<char>, data: Seq<char>, k: FileType)
    -> FsView {
    FsView {
        files: v.files.push(
            FileRec { id: v.next_file_id, name: n, kind: k, data, directory: d },
        ),
        next_file_id: v.next_file_id + 1,
        ..v
    }
}

/// The tables after deleting a file row; nothing changes when no row
/// matches.
pub open spec fn file_del_tr(v: FsView, d: Seq<char>, n: Seq<char>) -> FsView {
    if has_file(v.files, d, n) {
        FsView { files: v.files.remove(file_index(v.files, d, n)), ..v }
    } else {
        v
    }
}

/// When renaming a file row succeeds: either no row matches (zero rows
/// update), or the new key is free (or is the row's own key).
pub open spec fn file_rename_ok(v: FsView, d: Seq<char>, n: Seq<char>, m: Seq<char>) -> bool {
    has_file(v.files, d, n) ==> (m == n || !has_file(v.files, d, m))
}

/// The tables after renaming a file row.
pub open spec fn file_rename_tr(v: FsView, d: Seq<char>, n: Seq<char>, m: Seq<char>) -> FsView {
    if has_file(v.files, d, n) {
        let i = file_index(v.files, d, n);
        FsView { files: v.files.update(i, FileRec { name: m, ..v.files[i] }), ..v }
    } else {
        v
    }
}

/// When moving a file row succeeds: either no row matches, or the new
/// directory row exists and the key is free there (or the move stays).
pub open spec fn file_mv_ok(v: FsView, d: Seq<char>, n: Seq<char>, nd: Seq<char>) -> bool {
    has_file(v.files, d, n) ==> (has_dir(v.dirs, nd) && (nd == d || !has_file(v.files, nd, n)))
}

/// The tables after moving a file row.
pub open spec fn file_mv_tr(v: FsView, d: Seq<char>, n: Seq<char>, nd: Seq<char>) -> FsView {
    if has_file(v.files, d, n) {
        let i = file_index(v.files, d, n);
        FsView { files: v.files.update(i, FileRec { directory: nd, ..v.files[i] }), ..v }
    } else {
        v
    }
}

/// The tables after writing a file row's data and kind; nothing
/// changes when no row matches.
pub open spec fn file_write_tr(v: FsView, d: Seq<char>, n: Seq<char>, data: Seq<char>, k: FileType)
    -> FsView {
    if has_file(v.files, d, n) {
        let i = file_index(v.files, d, n);
        FsView { files: v.files.update(i, FileRec { data, kind: k, ..v.files[i] }), ..v }
    } else {
        v
    }
}

/// When creating a directory row succeeds: the path is free and a
/// fresh id is available.
pub open spec fn dir_mk_ok(v: FsView, p: Seq<char>) -> bool {
    &&& !has_dir(v.dirs, p)
    &&& v.next_dir_id < i64::MAX as int
}

/// The tables after creating a directory row.
pub open spec fn dir_mk_tr(v: FsView, p: Seq<char>) -> FsView {
    FsView {
        dirs: v.dirs.push(DirRec { id: v.next_dir_id, path: p }),
        next_dir_id: v.next_dir_id + 1,
        ..v
    }
}

/// The file rows lying in the directory `p`.
pub open spec fn files_in(files: Seq<FileRec>, p: Seq<char>) -> Seq<FileRec> {
    files.filter(|f: FileRec| f.directory == p)
}

/// The file rows lying outside the directory `p`.
pub open spec fn files_outside(files: Seq<FileRec>, p: Seq<char>) -> Seq<FileRec> {
    files.filter(|f: FileRec| f.directory != p)
}

/// The directory rows strictly below `p`: their paths extend it.
pub open spec fn dirs_under(dirs: Seq<DirRec>, p: Seq<char>) -> Seq<DirRec> {
    dirs.filter(|d: DirRec| p.is_prefix_of(d.path) && d.path.len() > p.len())
}

/// The file rows lying in `p` or anywhere below it.
pub open spec fn files_under(files: Seq<FileRec>, p: Seq<char>) -> Seq<FileRec> {
    files.filter(|f: FileRec| p.is_prefix_of(f.directory))
}

/// The directory rows below `p`, excluding `p`'s own row.
pub open spec fn dirs_under_excl(dirs: Seq<DirRec>, p: Seq<char>) -> Seq<DirRec> {
    dirs.filter(|d: DirRec| p.is_prefix_of(d.path) && d.path != p)
}

/// The tables after deleting a directory row: the row goes, and every
/// file row in that directory cascades away. Sub-directories stay.
pub open spec fn dir_del_tr(v: FsView, p: Seq<char>) -> FsView {
    FsView {
        dirs: if has_dir(v.dirs, p) {
            v.dirs.remove(dir_index(v.dirs, p))
        } else {
            v.dirs
        },
        files: files_outside(v.files, p),
        ..v
    }
}

/// A directory row under the prefix move `p -> q`.
pub open spec fn rewrite_dir_rec(r: DirRec, p: Seq<char>, q: Seq<char>) -> DirRec {
    DirRec { id: r.id, path: rewrite_prefix(r.path, p, q) }
}

/// A file row under the prefix move `p -> q`.
pub open spec fn rewrite_file_rec(r: FileRec, p: Seq<char>, q: Seq<char>) -> FileRec {
    FileRec { directory: rewrite_prefix(r.directory, p, q), ..r }
}

/// When a prefix move succeeds: the rewritten directory paths stay
/// pairwise distinct, and the rewritten file keys stay pairwise
/// distinct.
pub open spec fn dir_mv_ok(v: FsView, p: Seq<char>, q: Seq<char>) -> bool {
    &&& forall|i: int, j: int|
        0 <= i < j < v.dirs.len() ==> rewrite_prefix((#[trigger] v.dirs[i]).path, p, q)
            != rewrite_prefix((#[trigger] v.dirs[j]).path, p, q)
    &&& forall|i: int, j: int|
        0 <= i < j < v.files.len() ==> !((#[trigger] v.files[i]).name
            == (#[trigger] v.files[j]).name && rewrite_prefix(v.files[i].directory, p, q)
            == rewrite_prefix(v.files[j].directory, p, q))
}

/// The tables after the prefix move `p -> q`: every directory path
/// with prefix `p` has it replaced by `q`, and the files' directory
/// column cascades in step.
pub open spec fn dir_mv_tr(v: FsView, p: Seq<char>, q: Seq<char>) -> FsView {
    FsView {
        dirs: v.dirs.map_values(|r: DirRec| rewrite_dir_rec(r, p, q)),
        files: v.files.map_values(|r: FileRec| rewrite_file_rec(r, p, q)),
        ..v
    }
}

/// Well-formedness of the tables: every stored directory path is
/// `/` or `/…/` and unique; every file row's name is slash-free, its
/// directory row exists, and its `(name, directory)` key is unique;
/// ids are unique and below the next fresh id.
pub open spec fn wf_view(v: FsView) -> bool {
    &&& v.next_dir_id >= 1
    &&& v.next_file_id >= 1
    &&& v.next_dir_id <= i64::MAX as int
    &&& v.next_file_id <= i64::MAX as int
    &&& forall|i: int| 0 <= i < v.dirs.len() ==> is_dir_path(#[trigger] v.dirs[i].path)
    &&& forall|i: int| 0 <= i < v.dirs.len() ==> 1 <= (#[trigger] v.dirs[i]).id < v.next_dir_id
    &&& forall|i: int, j: int|
        0 <= i < j < v.dirs.len() ==> (#[trigger] v.dirs[i]).path != (#[trigger] v.dirs[j]).path
    &&& forall|i: int, j: int|
        0 <= i < j < v.dirs.len() ==> (#[trigger] v.dirs[i]).id != (#[trigger] v.dirs[j]).id
    &&& forall|i: int| 0 <= i < v.files.len() ==> is_file_name((#[trigger] v.files[i]).name)
    &&& forall|i: int|
        0 <= i < v.files.len() ==> has_dir(v.dirs, (#[trigger] v.files[i]).directory)
    &&& forall|i: int| 0 <= i < v.files.len() ==> 1 <= (#[trigger] v.files[i]).id < v.next_file_id
    &&& forall|i: int, j: int|
        0 <= i < j < v.files.len() ==> !((#[trigger] v.files[i]).directory
            == (#[trigger] v.files[j]).directory && v.files[i].name == v.files[j].name)
    &&& forall|i: int, j: int|
        0 <= i < j < v.files.len() ==> (#[trigger] v.files[i]).id != (#[trigger] v.files[j]).id
}

/// Creating a file row preserves well-formedness.
pub proof fn lemma_file_mk_wf(v: FsView, d: Seq<char>, n: Seq<char>, data: Seq<char>, k: FileType)
    requires
        wf_view(v),
        file_mk_ok(v, d, n),
        is_file_name(n),
    ensures
        wf_view(file_mk_tr(v, d, n, data, k)),
{
    let v2 = file_mk_tr(v, d, n, data, k);
    let f2 = v2.files;
    let m = v.files.len() as int;
    assert(forall|i: int| 0 <= i < m ==> f2[i] == v.files[i]);
    assert forall|i: int, j: int| 0 <= i < j < f2.len() implies !((#[trigger] f2[i]).directory
        == (#[trigger] f2[j]).directory && f2[i].name == f2[j].name) by {
        if j < m {
        } else {
            assert(f2[j].directory == d && f2[j].name == n);
            if f2[i].directory == d && f2[i].name == n {
                assert(has_file(v.files, d, n));
            }
        }
    }
    assert forall|i: int, j: int| 0 <= i < j < f2.len() implies (#[trigger] f2[i]).id
        != (#[trigger] f2[j]).id by {
        if j == m {
            assert(f2[i].id < v.next_file_id);
        }
    }
}

/// Deleting a file row preserves well-formedness.
pub proof fn lemma_file_del_wf(v: FsView, d: Seq<char>, n: Seq<char>)
    requires
        wf_view(v),
    ensures
        wf_view(file_del_tr(v, d, n)),
{
    if has_file(v.files, d, n) {
        let fi = file_index(v.files, d, n);
        assert(0 <= fi < v.files.len() && v.files[fi].directory == d && v.files[fi].name == n);
        let f2 = v.files.remove(fi);
        assert(forall|k: int| 0 <= k < fi ==> f2[k] == v.files[k]);
        assert(forall|k: int| fi <= k < f2.len() ==> f2[k] == v.files[k + 1]);
        assert forall|i: int, j: int| 0 <= i < j < f2.len() implies !((#[trigger] f2[i]).directory
            == (#[trigger] f2[j]).directory && f2[i].name == f2[j].name) by {
            let oi: int = if i < fi { i } else { i + 1 };
            let oj: int = if j < fi { j } else { j + 1 };
            assert(f2[i] == v.files[oi]);
            assert(f2[j] == v.files[oj]);
        }
        assert forall|i: int, j: int| 0 <= i < j < f2.len() implies (#[trigger] f2[i]).id
            != (#[trigger] f2[j]).id by {
            let oi: int = if i < fi { i } else { i + 1 };
            let oj: int = if j < fi { j } else { j + 1 };
            assert(f2[i] == v.files[oi]);
            assert(f2[j] == v.files[oj]);
        }
        assert forall|i: int| 0 <= i < f2.len() implies is_file_name((#[trigger] f2[i]).name)
            && has_dir(v.dirs, f2[i].directory) && 1 <= f2[i].id < v.next_file_id by {
            let oi: int = if i < fi { i } else { i + 1 };
            assert(f2[i] == v.files[oi]);
        }
    }
}

/// Replacing one file row, keeping its key unique, preserves
/// well-formedness.
pub proof fn lemma_file_update_wf(v: FsView, i: int, rec: FileRec)
    requires
        wf_view(v),
        0 <= i < v.files.len(),
        is_file_name(rec.name),
        has_dir(v.dirs, rec.directory),
        rec.id == v.files[i].id,
        forall|j: int|
            0 <= j < v.files.len() && j != i ==> !((#[trigger] v.files[j]).directory
                == rec.directory && v.files[j].name == rec.name),
    ensures
        wf_view(FsView { files: v.files.update(i, rec), ..v }),
{
    let f2 = v.files.update(i, rec);
    assert(forall|k: int| 0 <= k < f2.len() && k != i ==> f2[k] == v.files[k]);
    assert(f2[i] == rec);
    assert forall|a: int, b: int| 0 <= a < b < f2.len() implies !((#[trigger] f2[a]).directory
        == (#[trigger] f2[b]).directory && f2[a].name == f2[b].name) by {
        if a != i && b != i {
        } else if a == i {
            assert(f2[b] == v.files[b]);
        } else {
            assert(f2[a] == v.files[a]);
        }
    }
    assert forall|a: int, b: int| 0 <= a < b < f2.len() implies (#[trigger] f2[a]).id
        != (#[trigger] f2[b]).id by {
        assert(f2[a].id == v.files[a].id);
        assert(f2[b].id == v.files[b].id);
    }
}

/// Creating a directory row preserves well-formedness.
pub proof fn lemma_dir_mk_wf(v: FsView, p: Seq<char>)
    requires
        wf_view(v),
        dir_mk_ok(v, p),
        is_dir_path(p),
    ensures
        wf_view(dir_mk_tr(v, p)),
{
    let v2 = dir_mk_tr(v, p);
    let d2 = v2.dirs;
    let m = v.dirs.len() as int;
    assert(forall|i: int| 0 <= i < m ==> d2[i] == v.dirs[i]);
    assert forall|i: int, j: int| 0 <= i < j < d2.len() implies (#[trigger] d2[i]).path
        != (#[trigger] d2[j]).path by {
        if j == m {
            if d2[i].path == p {
                assert(has_dir(v.dirs, p));
            }
        }
    }
    assert forall|i: int, j: int| 0 <= i < j < d2.len() implies (#[trigger] d2[i]).id
        != (#[trigger] d2[j]).id by {
        if j == m {
            assert(d2[i].id < v.next_dir_id);
        }
    }
    assert forall|i: int| 0 <= i < v2.files.len() implies has_dir(
        v2.dirs,
        (#[trigger] v2.files[i]).directory,
    ) by {
        assert(has_dir(v.dirs, v.files[i].directory));
        let k = choose|k: int| 0 <= k < v.dirs.len() && v.dirs[k].path == v.files[i].directory;
        assert(d2[k].path == v.files[i].directory);
    }
}

/// Filtering the file rows by directory keeps every well-formedness
/// clause, provided the kept rows' directories survive in `nd`.
proof fn lemma_files_outside_wf(s: Seq<FileRec>, p: Seq<char>, nd: Seq<DirRec>, bound: int)
    requires
        forall|i: int| 0 <= i < s.len() ==> is_file_name((#[trigger] s[i]).name),
        forall|i: int| 0 <= i < s.len() ==> 1 <= (#[trigger] s[i]).id < bound,
        forall|i: int|
            0 <= i < s.len() && (#[trigger] s[i]).directory != p ==> has_dir(nd, s[i].directory),
        forall|i: int, j: int|
            0 <= i < j < s.len() ==> !((#[trigger] s[i]).directory == (#[trigger] s[j]).directory
                && s[i].name == s[j].name),
        forall|i: int, j: int|
            0 <= i < j < s.len() ==> (#[trigger] s[i]).id != (#[trigger] s[j]).id,
    ensures
        forall|i: int|
            0 <= i < files_outside(s, p).len() ==> is_file_name(
                (#[trigger] files_outside(s, p)[i]).name,
            ) && 1 <= files_outside(s, p)[i].id < bound && files_outside(s, p)[i].directory != p
                && has_dir(nd, files_outside(s, p)[i].directory),
        forall|i: int, j: int|
            0 <= i < j < files_outside(s, p).len() ==> !((#[trigger] files_outside(
                s,
                p,
            )[i]).directory == (#[trigger] files_outside(s, p)[j]).directory && files_outside(
                s,
                p,
            )[i].name == files_outside(s, p)[j].name),
        forall|i: int, j: int|
            0 <= i < j < files_outside(s, p).len() ==> (#[trigger] files_outside(s, p)[i]).id
                != (#[trigger] files_outside(s, p)[j]).id,
    decreases s.len(),
{
    reveal_with_fuel(Seq::filter, 2);
    if s.len() == 0 {
        assert(files_outside(s, p) =~= Seq::<FileRec>::empty());
    } else {
        let rest = s.drop_last();
        let last = s.last();
        lemma_files_outside_wf(rest, p, nd, bound);
        let fr = files_outside(rest, p);
        assert(files_outside(s, p) == if last.directory != p {
            fr.push(last)
        } else {
            fr
        });
        if last.directory != p {
            let f2 = fr.push(last);
            assert forall|i: int, j: int| 0 <= i < j < f2.len() implies !((#[trigger]
            f2[i]).directory == (#[trigger] f2[j]).directory && f2[i].name == f2[j].name) by {
                if j == fr.len() {
                    assert(fr.contains(fr[i]));
                    rest.lemma_filter_contains_rev(|f: FileRec| f.directory != p, f2[i]);
                    let k = choose|k: int| 0 <= k < rest.len() && rest[k] == f2[i];
                    assert(s[k] == f2[i]);
                    assert(s[s.len() - 1] == last);
                }
            }
            assert forall|i: int, j: int| 0 <= i < j < f2.len() implies (#[trigger] f2[i]).id
                != (#[trigger] f2[j]).id by {
                if j == fr.len() {
                    assert(fr.contains(fr[i]));
                    rest.lemma_filter_contains_rev(|f: FileRec| f.directory != p, f2[i]);
                    let k = choose|k: int| 0 <= k < rest.len() && rest[k] == f2[i];
                    assert(s[k] == f2[i]);
                    assert(s[s.len() - 1] == last);
                }
            }
        }
    }
}

/// Deleting a directory row, with its files cascading away, preserves
/// well-formedness.
pub proof fn lemma_dir_del_wf(v: FsView, p: Seq<char>)
    requires
        wf_view(v),
    ensures
        wf_view(dir_del_tr(v, p)),
{
    let v2 = dir_del_tr(v, p);
    if has_dir(v.dirs, p) {
        let di = dir_index(v.dirs, p);
        assert(0 <= di < v.dirs.len() && v.dirs[di].path == p);
        let d2 = v.dirs.remove(di);
        assert(forall|k: int| 0 <= k < di ==> d2[k] == v.dirs[k]);
        assert(forall|k: int| di <= k < d2.len() ==> d2[k] == v.dirs[k + 1]);
        assert forall|i: int, j: int| 0 <= i < j < d2.len() implies (#[trigger] d2[i]).path
            != (#[trigger] d2[j]).path && (#[trigger] d2[i]).id != (#[trigger] d2[j]).id by {
            let oi: int = if i < di { i } else { i + 1 };
            let oj: int = if j < di { j } else { j + 1 };
            assert(d2[i] == v.dirs[oi]);
            assert(d2[j] == v.dirs[oj]);
        }
        assert forall|i: int| 0 <= i < d2.len() implies is_dir_path((#[trigger] d2[i]).path) && 1
            <= d2[i].id < v.next_dir_id by {
            let oi: int = if i < di { i } else { i + 1 };
            assert(d2[i] == v.dirs[oi]);
        }
        assert forall|i: int|
            0 <= i < v.files.len() && (#[trigger] v.files[i]).directory != p implies has_dir(
            d2,
            v.files[i].directory,
        ) by {
            assert(has_dir(v.dirs, v.files[i].directory));
            let k = choose|k: int|
                0 <= k < v.dirs.len() && v.dirs[k].path == v.files[i].directory;
            if k < di {
                assert(d2[k] == v.dirs[k]);
            } else {
                assert(v.dirs[k].path != p);
                assert(k != di);
                assert(d2[k - 1] == v.dirs[k]);
            }
        }
        lemma_files_outside_wf(v.files, p, d2, v.next_file_id);
    } else {
        assert forall|i: int|
            0 <= i < v.files.len() && (#[trigger] v.files[i]).directory != p implies has_dir(
            v.dirs,
            v.files[i].directory,
        ) by {}
        lemma_files_outside_wf(v.files, p, v.dirs, v.next_file_id);
        assert forall|i: int| 0 <= i < v2.files.len() implies has_dir(
            v2.dirs,
            (#[trigger] v2.files[i]).directory,
        ) by {}
    }
}

/// A prefix rewrite of a well-formed directory path, toward a
/// well-formed directory path, is again well-formed.
pub proof fn lemma_rewrite_dir_path_wf(s: Seq<char>, p: Seq<char>, q: Seq<char>)
    requires
        is_dir_path(s),
        is_dir_path(q),
    ensures
        is_dir_path(rewrite_prefix(s, p, q)),
{
    if p.is_prefix_of(s) {
        let r = q + s.skip(p.len() as int);
        if p.len() == s.len() {
            assert(r =~= q);
        } else {
            assert(r[0] == q[0]);
            assert(r[r.len() - 1] == s[s.len() - 1]);
        }
    }
}

/// The prefix move `p -> q` preserves well-formedness when its
/// success condition holds.
pub proof fn lemma_dir_mv_wf(v: FsView, p: Seq<char>, q: Seq<char>)
    requires
        wf_view(v),
        dir_mv_ok(v, p, q),
        is_dir_path(q),
    ensures
        wf_view(dir_mv_tr(v, p, q)),
{
    let v2 = dir_mv_tr(v, p, q);
    assert(v2.dirs.len() == v.dirs.len());
    assert(v2.files.len() == v.files.len());
    assert(forall|i: int|
        0 <= i < v.dirs.len() ==> v2.dirs[i] == rewrite_dir_rec(#[trigger] v.dirs[i], p, q));
    assert(forall|i: int|
        0 <= i < v.files.len() ==> v2.files[i] == rewrite_file_rec(#[trigger] v.files[i], p, q));
    assert forall|i: int| 0 <= i < v2.dirs.len() implies is_dir_path(
        (#[trigger] v2.dirs[i]).path,
    ) by {
        lemma_rewrite_dir_path_wf(v.dirs[i].path, p, q);
    }
    assert forall|i: int| 0 <= i < v2.files.len() implies has_dir(
        v2.dirs,
        (#[trigger] v2.files[i]).directory,
    ) by {
        assert(has_dir(v.dirs, v.files[i].directory));
        let k = choose|k: int| 0 <= k < v.dirs.len() && v.dirs[k].path == v.files[i].directory;
        assert(v2.dirs[k].path == rewrite_prefix(v.files[i].directory, p, q));
    }
}

/// Whether a file row with the given id is present.
pub open spec fn has_file_id(files: Seq<FileRec>, id: int) -> bool {
    exists|i: int| 0 <= i < files.len() && files[i].id == id
}

/// The index of the file row with the given id.
pub open spec fn file_id_index(files: Seq<FileRec>, id: int) -> int {
    choose|i: int| 0 <= i < files.len() && files[i].id == id
}

/// Whether a directory row with the given id is present.
pub open spec fn has_dir_id(dirs: Seq<DirRec>, id: int) -> bool {
    exists|i: int| 0 <= i < dirs.len() && dirs[i].id == id
}

/// The index of the directory row with the given id.
pub open spec fn dir_id_index(dirs: Seq<DirRec>, id: int) -> int {
    choose|i: int| 0 <= i < dirs.len() && dirs[i].id == id
}

/// Every row of `files_in` is a row of the input, and lies in `p`.
pub proof fn lemma_files_in_elements(files: Seq<FileRec>, p: Seq<char>)
    ensures
        forall|k: int|
            0 <= k < files_in(files, p).len() ==> files.contains(
                #[trigger] files_in(files, p)[k],
            ) && files_in(files, p)[k].directory == p,
    decreases files.len(),
{
    reveal_with_fuel(Seq::filter, 2);
    if files.len() == 0 {
        assert(files_in(files, p) =~= Seq::<FileRec>::empty());
    } else {
        let rest = files.drop_last();
        lemma_files_in_elements(rest, p);
        assert(forall|w: int| 0 <= w < rest.len() ==> rest[w] == files[w]);
        assert forall|k: int| 0 <= k < files_in(files, p).len() implies files.contains(
            #[trigger] files_in(files, p)[k],
        ) && files_in(files, p)[k].directory == p by {
            if k < files_in(rest, p).len() {
                assert(files_in(files, p)[k] == files_in(rest, p)[k]);
                assert(rest.contains(files_in(rest, p)[k]));
                let w = choose|w: int|
                    0 <= w < rest.len() && rest[w] == files_in(rest, p)[k];
                assert(files[w] == files_in(files, p)[k]);
            } else {
                assert(files_in(files, p)[k] == files.last());
                assert(files[files.len() - 1] == files.last());
            }
        }
    }
}

/// Every row of `dirs_under` is a row of the input, and its path
/// strictly extends `p`.
pub proof fn lemma_dirs_under_elements(dirs: Seq<DirRec>, p: Seq<char>)
    ensures
        forall|k: int|
            0 <= k < dirs_under(dirs, p).len() ==> dirs.contains(
                #[trigger] dirs_under(dirs, p)[k],
            ) && p.is_prefix_of(dirs_under(dirs, p)[k].path) && dirs_under(dirs, p)[k].path.len()
                > p.len(),
    decreases dirs.len(),
{
    reveal_with_fuel(Seq::filter, 2);
    if dirs.len() == 0 {
        assert(dirs_under(dirs, p) =~= Seq::<DirRec>::empty());
    } else {
        let rest = dirs.drop_last();
        lemma_dirs_under_elements(rest, p);
        assert(forall|w: int| 0 <= w < rest.len() ==> rest[w] == dirs[w]);
        assert forall|k: int| 0 <= k < dirs_under(dirs, p).len() implies dirs.contains(
            #[trigger] dirs_under(dirs, p)[k],
        ) && p.is_prefix_of(dirs_under(dirs, p)[k].path) && dirs_under(dirs, p)[k].path.len()
            > p.len() by {
            if k < dirs_under(rest, p).len() {
                assert(dirs_under(dirs, p)[k] == dirs_under(rest, p)[k]);
                assert(rest.contains(dirs_under(rest, p)[k]));
                let w = choose|w: int|
                    0 <= w < rest.len() && rest[w] == dirs_under(rest, p)[k];
                assert(dirs[w] == dirs_under(dirs, p)[k]);
            } else {
                assert(dirs_under(dirs, p)[k] == dirs.last());
                assert(dirs[dirs.len() - 1] == dirs.last());
            }
        }
    }
}

/// In a well-formed state an id picks one file row.
pub proof fn lemma_file_id_index_unique(v: FsView, id: int, i: int)
    requires
        wf_view(v),
        0 <= i < v.files.len(),
        v.files[i].id == id,
    ensures
        has_file_id(v.files, id),
        file_id_index(v.files, id) == i,
{
    assert(has_file_id(v.files, id));
    let k = file_id_index(v.files, id);
    assert(0 <= k < v.files.len() && v.files[k].id == id);
    if k < i {
        assert(v.files[k].id != v.files[i].id);
    } else if i < k {
        assert(v.files[i].id != v.files[k].id);
    }
}

/// In a well-formed state an id picks one directory row.
pub proof fn lemma_dir_id_index_unique(v: FsView, id: int, i: int)
    requires
        wf_view(v),
        0 <= i < v.dirs.len(),
        v.dirs[i].id == id,
    ensures
        has_dir_id(v.dirs, id),
        dir_id_index(v.dirs, id) == i,
{
    assert(has_dir_id(v.dirs, id));
    let k = dir_id_index(v.dirs, id);
    assert(0 <= k < v.dirs.len() && v.dirs[k].id == id);
    if k < i {
        assert(v.dirs[k].id != v.dirs[i].id);
    } else if i < k {
        assert(v.dirs[i].id != v.dirs[k].id);
    }
}

/// In a well-formed state the `(directory, name)` key picks one row:
/// any matching index is the chosen one.
pub proof fn lemma_file_index_unique(v: FsView, d: Seq<char>, n: Seq<char>, i: int)
    requires
        wf_view(v),
        0 <= i < v.files.len(),
        v.files[i].directory == d,
        v.files[i].name == n,
    ensures
        has_file(v.files, d, n),
        file_index(v.files, d, n) == i,
        file_at(v.files, d, n) == v.files[i],
{
    assert(has_file(v.files, d, n));
    let k = file_index(v.files, d, n);
    assert(0 <= k < v.files.len() && v.files[k].directory == d && v.files[k].name == n);
    if k < i {
        assert(!(v.files[k].directory == v.files[i].directory && v.files[k].name
            == v.files[i].name));
    } else if i < k {
        assert(!(v.files[i].directory == v.files[k].directory && v.files[i].name
            == v.files[k].name));
    }
}

/// In a well-formed state a directory path picks one row: any
/// matching index is the chosen one.
pub proof fn lemma_dir_index_unique(v: FsView, p: Seq<char>, i: int)
    requires
        wf_view(v),
        0 <= i < v.dirs.len(),
        v.dirs[i].path == p,
    ensures
        has_dir(v.dirs, p),
        dir_index(v.dirs, p) == i,
{
    assert(has_dir(v.dirs, p));
    let k = dir_index(v.dirs, p);
    assert(0 <= k < v.dirs.len() && v.dirs[k].path == p);
    if k < i {
        assert(v.dirs[k].path != v.dirs[i].path);
    } else if i < k {
        assert(v.dirs[i].path != v.dirs[k].path);
    }
}

/// The connection: the table names derived from the prefix, and the
/// rows of the tables.
pub struct FSConnection {
    pub file_table: String,
    pub dir_table: String,
    pub file_type_table: String,
    dirs: Vec<DirRow>,
    files: Vec<FileRow>,
    next_dir_id: u64,
    next_file_id: u64,
}

impl FSConnection {
    /// The tables as mathematics.
    pub closed spec fn fsv(&self) -> FsView {
        FsView {
            dirs: dir_views(self.dirs@),
            files: file_views(self.files@),
            next_dir_id: self.next_dir_id as int,
            next_file_id: self.next_file_id as int,
        }
    }

    /// The connection's invariant.
    pub open spec fn wf(&self) -> bool {
        wf_view(self.fsv())
    }

    /// The name of the file table.
    pub closed spec fn file_table_name(&self) -> Seq<char> {
        self.file_table@
    }

    /// The name of the directory table.
    pub closed spec fn dir_table_name(&self) -> Seq<char> {
        self.dir_table@
    }

    /// The name of the kind table.
    pub closed spec fn file_type_table_name(&self) -> Seq<char> {
        self.file_type_table@
    }

    /// Derives the three table names from the prefix.
    pub fn create_table_names(table_prefix: &str) -> (r: (String, String, String))
        ensures
            r.0@ == table_prefix@ + seq!['f', 'i', 'l', 'e', 's'],
            r.1@ == table_prefix@ + seq!['d', 'i', 'r', 's'],
            r.2@ == table_prefix@ + seq!['f', 'i', 'l', 'e', '_', 't', 'y', 'p', 'e', 's'],
    {
        proof {
            reveal_strlit("files");
            reveal_strlit("dirs");
            reveal_strlit("file_types");
            assert("files"@ =~= seq!['f', 'i', 'l', 'e', 's']);
            assert("dirs"@ =~= seq!['d', 'i', 'r', 's']);
            assert("file_types"@ =~= seq!['f', 'i', 'l', 'e', '_', 't', 'y', 'p', 'e', 's']);
        }
        let mut file_table = table_prefix.to_owned();
        file_table.append("files");
        let mut dir_table = table_prefix.to_owned();
        dir_table.append("dirs");
        let mut file_type_table = table_prefix.to_owned();
        file_type_table.append("file_types");
        (file_table, dir_table, file_type_table)
    }

    /// A fresh connection: the root directory row alone, no files, the
    /// three kinds valid by type.
    pub fn new(table_prefix: &str) -> (c: FSConnection)
        ensures
            c.wf(),
            c.fsv().dirs =~= seq![DirRec { id: 1, path: root_path() }],
            c.fsv().files =~= Seq::<FileRec>::empty(),
            c.fsv().next_dir_id == 2,
            c.fsv().next_file_id == 1,
            c.file_table_name() == table_prefix@ + seq!['f', 'i', 'l', 'e', 's'],
            c.dir_table_name() == table_prefix@ + seq!['d', 'i', 'r', 's'],
            c.file_type_table_name() == table_prefix@ + seq!['f', 'i', 'l', 'e', '_', 't', 'y',
                'p', 'e', 's'],
    {
        let (file_table, dir_table, file_type_table) = FSConnection::create_table_names(
            table_prefix,
        );
        proof {
            reveal_strlit("/");
            assert("/"@ =~= seq!['/']);
        }
        let root = DirRow { id: 1, path: "/".to_owned() };
        let mut dirs: Vec<DirRow> = Vec::new();
        dirs.push(root);
        let files: Vec<FileRow> = Vec::new();
        let c = FSConnection {
            file_table,
            dir_table,
            file_type_table,
            dirs,
            files,
            next_dir_id: 2,
            next_file_id: 1,
        };
        proof {
            assert(c.fsv().dirs =~= seq![DirRec { id: 1, path: root_path() }]);
            assert(c.fsv().files =~= Seq::<FileRec>::empty());
        }
        c
    }

    /// The index of the directory row with the given path, if any.
    fn find_dir(&self, path: &str) -> (r: Option<usize>)
        ensures
            r matches Some(i) ==> i < self.fsv().dirs.len() && self.fsv().dirs[i as int].path
                == path@,
            r is None ==> !has_dir(self.fsv().dirs, path@),
    {
        let mut i: usize = 0;
        while i < self.dirs.len()
            invariant
                i <= self.dirs.len(),
                self.fsv().dirs.len() == self.dirs@.len(),
                forall|k: int| 0 <= k < i ==> (#[trigger] self.fsv().dirs[k]).path != path@,
            decreases self.dirs.len() - i,
        {
            if str_eq(self.dirs[i].path.as_str(), path) {
                return Some(i);
            }
            i += 1;
        }
        None
    }

    /// The index of the file row keyed `(directory, name)`, if any.
    fn find_file(&self, directory: &str, name: &str) -> (r: Option<usize>)
        ensures
            r matches Some(i) ==> i < self.fsv().files.len() && self.fsv().files[i as int].directory
                == directory@ && self.fsv().files[i as int].name == name@,
            r is None ==> !has_file(self.fsv().files, directory@, name@),
    {
        let mut i: usize = 0;
        while i < self.files.len()
            invariant
                i <= self.files.len(),
                self.fsv().files.len() == self.files@.len(),
                forall|k: int|
                    0 <= k < i ==> !((#[trigger] self.fsv().files[k]).directory == directory@
                        && self.fsv().files[k].name == name@),
            decreases self.files.len() - i,
        {
            if str_eq(self.files[i].directory.as_str(), directory) && str_eq(
                self.files[i].name.as_str(),
                name,
            ) {
                return Some(i);
            }
            i += 1;
        }
        None
    }

    /// Replaces the file row at `i`.
    fn set_file_row(&mut self, i: usize, row: FileRow)
        requires
            i < old(self).fsv().files.len(),
        ensures
            final(self).fsv() == (FsView {
                files: old(self).fsv().files.update(i as int, row@),
                ..old(self).fsv()
            }),
    {
        self.files.remove(i);
        self.files.insert(i, row);
        proof {
            assert(file_views(self.files@) =~= old(self).fsv().files.update(i as int, row@));
            assert(self.fsv() =~= (FsView {
                files: old(self).fsv().files.update(i as int, row@),
                ..old(self).fsv()
            }));
        }
    }

    /// The index of the file row with the given id, if any.
    fn find_file_by_id(&self, id: u64) -> (r: Option<usize>)
        ensures
            r matches Some(i) ==> i < self.fsv().files.len() && self.fsv().files[i as int].id
                == id,
            r is None ==> !has_file_id(self.fsv().files, id as int),
    {
        let mut i: usize = 0;
        while i < self.files.len()
            invariant
                i <= self.files.len(),
                self.fsv().files.len() == self.files@.len(),
                forall|k: int| 0 <= k < i ==> (#[trigger] self.fsv().files[k]).id != id,
            decreases self.files.len() - i,
        {
            if self.files[i].id == id {
                return Some(i);
            }
            i += 1;
        }
        None
    }

    /// The index of the directory row with the given id, if any.
    fn find_dir_by_id(&self, id: u64) -> (r: Option<usize>)
        ensures
            r matches Some(i) ==> i < self.fsv().dirs.len() && self.fsv().dirs[i as int].id
                == id,
            r is None ==> !has_dir_id(self.fsv().dirs, id as int),
    {
        let mut i: usize = 0;
        while i < self.dirs.len()
            invariant
                i <= self.dirs.len(),
                self.fsv().dirs.len() == self.dirs@.len(),
                forall|k: int| 0 <= k < i ==> (#[trigger] self.fsv().dirs[k]).id != id,
            decreases self.dirs.len() - i,
        {
            if self.dirs[i].id == id {
                return Some(i);
            }
            i += 1;
        }
        None
    }

    /// Resolves a path: the directory row wins, then the file row,
    /// else nothing is there.
    pub fn resolve_path(&self, path: &str) -> (r: Result<FSType, FSError>)
        ensures
            has_dir(self.fsv().dirs, norm_dir_path(path@)) ==> (r matches Ok(
                FSType::Directory(d),
            ) && d.path@ == norm_dir_path(path@)),
            !has_dir(self.fsv().dirs, norm_dir_path(path@)) && norm_comps(path@).len() > 0
                && has_file(
                self.fsv().files,
                join_dir(norm_comps(path@).drop_last()),
                norm_comps(path@).last(),
            ) ==> (r matches Ok(FSType::File(f)) && f.name@ == norm_comps(path@).last()
                && f.directory.path@ == join_dir(norm_comps(path@).drop_last())),
            !has_dir(self.fsv().dirs, norm_dir_path(path@)) && !(norm_comps(path@).len() > 0
                && has_file(
                self.fsv().files,
                join_dir(norm_comps(path@).drop_last()),
                norm_comps(path@).last(),
            )) ==> (r matches Err(e) && e matches FSError::DoesNotExist(s) && s@ == path@),
    {
        let dir = Directory { path: normalize_dir(path) };
        match self.find_dir(dir.path.as_str()) {
            Some(i) => {
                proof {
                    assert(self.fsv().dirs[i as int].path == norm_dir_path(path@));
                    assert(has_dir(self.fsv().dirs, norm_dir_path(path@)));
                }
                return Ok(FSType::Directory(dir));
            },
            None => {},
        }
        match normalize_file(path) {
            Some((d, n)) => {
                match self.find_file(d.as_str(), n.as_str()) {
                    Some(i) => {
                        proof {
                            assert(self.fsv().files[i as int].directory == d@
                                && self.fsv().files[i as int].name == n@);
                            assert(has_file(self.fsv().files, d@, n@));
                        }
                        Ok(FSType::File(File { name: n, directory: Directory { path: d } }))
                    },
                    None => Err(FSError::DoesNotExist(path.to_owned())),
                }
            },
            None => Err(FSError::DoesNotExist(path.to_owned())),
        }
    }

    /// The tables that a fresh database is missing, in dependency
    /// order: kinds first, then directories, then files.
    pub fn tables_to_create(found: &Vec<String>, file_table: &str, dir_table: &str,
        file_type_table: &str) -> (r: Vec<String>)
        ensures
            crate::path::views_of(r@) == setup_plan(
                crate::path::views_of(found@),
                file_table@,
                dir_table@,
                file_type_table@,
            ),
    {
        let mut out: Vec<String> = Vec::new();
        if !vec_contains_str(found, file_type_table) {
            out.push(file_type_table.to_owned());
        }
        if !vec_contains_str(found, dir_table) {
            out.push(dir_table.to_owned());
        }
        if !vec_contains_str(found, file_table) {
            out.push(file_table.to_owned());
        }
        proof {
            assert(crate::path::views_of(out@) =~= setup_plan(
                crate::path::views_of(found@),
                file_table@,
                dir_table@,
                file_type_table@,
            ));
        }
        out
    }
}

/// Whether the name `n` occurs among `names`.
pub open spec fn name_in(names: Seq<Seq<char>>, n: Seq<char>) -> bool {
    exists|i: int| 0 <= i < names.len() && names[i] == n
}

/// The tables a fresh database is missing, given what the catalog
/// already holds: kind table first, then directories, then files.
pub open spec fn setup_plan(
    found: Seq<Seq<char>>,
    file_table: Seq<char>,
    dir_table: Seq<char>,
    file_type_table: Seq<char>,
) -> Seq<Seq<char>> {
    (if !name_in(found, file_type_table) {
        seq![file_type_table]
    } else {
        Seq::empty()
    }) + (if !name_in(found, dir_table) {
        seq![dir_table]
    } else {
        Seq::empty()
    }) + (if !name_in(found, file_table) {
        seq![file_table]
    } else {
        Seq::empty()
    })
}

/// Whether the list holds a string equal to `s`.
pub fn vec_contains_str(v: &Vec<String>, s: &str) -> (r: bool)
    ensures
        r == name_in(crate::path::views_of(v@), s@),
{
    let mut i: usize = 0;
    while i < v.len()
        invariant
            i <= v.len(),
            forall|k: int| 0 <= k < i ==> crate::path::views_of(v@)[k] != s@,
        decreases v.len() - i,
    {
        if str_eq(v[i].as_str(), s) {
            proof {
                assert(crate::path::views_of(v@)[i as int] == s@);
            }
            return true;
        }
        i += 1;
    }
    false
}

/// A handle on a directory: its normalized absolute path, ending in
/// `/`.
#[derive(Debug)]
pub struct Directory {
    pub path: String,
}

/// A handle on a file: a slash-free name inside a directory.
#[derive(Debug)]
pub struct File {
    pub name: String,
    pub directory: Directory,
}

/// A resolved path: the directory or the file it denotes.
pub enum FSType {
    File(File),
    Directory(Directory),
}

impl Directory {
    /// The handle's invariant.
    pub open spec fn wf(&self) -> bool {
        is_dir_path(self.path@)
    }

    /// A copy of this handle.
    pub fn duplicate(&self) -> (r: Directory)
        ensures
            r == *self,
    {
        Directory { path: self.path.clone() }
    }

    /// A directory handle for any path string, normalized.
    pub fn new(path: &str) -> (r: Result<Directory, FSError>)
        ensures
            r is Ok,
            r matches Ok(d) ==> d.path@ == norm_dir_path(path@) && d.wf(),
    {
        Ok(Directory { path: normalize_dir(path) })
    }

    /// The root directory handle.
    pub fn root() -> (d: Directory)
        ensures
            d.path@ == root_path(),
            d.wf(),
    {
        proof {
            reveal_strlit("/");
            assert("/"@ =~= seq!['/']);
        }
        Directory { path: "/".to_owned() }
    }

    /// The handle of a file called `name` in this directory. Fails on
    /// a name with a slash, or an empty one.
    pub fn file(&self, name: &str) -> (r: Result<File, FSError>)
        ensures
            r is Ok <==> is_file_name(name@),
            r matches Ok(f) ==> f.name@ == name@ && f.directory == *self,
            r matches Err(e) ==> e matches FSError::PathIsNotAFile(s) && s@ == name@,
    {
        if check_file_name(name) {
            Ok(File { name: name.to_owned(), directory: self.duplicate() })
        } else {
            Err(FSError::PathIsNotAFile(name.to_owned()))
        }
    }

    /// The handle of a sub-directory called `name` in this directory.
    pub fn dir(&self, name: &str) -> (r: Result<Directory, FSError>)
        ensures
            r is Ok,
            r matches Ok(d) ==> d.path@ == norm_dir_path(self.path@ + name@) && d.wf(),
    {
        let mut joined = self.path.clone();
        joined.append(name);
        Directory::new(joined.as_str())
    }

    /// Whether this directory's row is present.
    pub fn exists_in(&self, fs_conn: &FSConnection) -> (r: Result<bool, FSError>)
        ensures
            r is Ok,
            r matches Ok(b) ==> b == has_dir(fs_conn.fsv().dirs, self.path@),
    {
        Ok(fs_conn.find_dir(self.path.as_str()).is_some())
    }

    /// The storage id of this directory's row.
    pub fn get_id(&self, fs_conn: &FSConnection) -> (r: Result<u64, FSError>)
        requires
            fs_conn.wf(),
        ensures
            r is Ok <==> has_dir(fs_conn.fsv().dirs, self.path@),
            r matches Ok(id) ==> has_dir(fs_conn.fsv().dirs, self.path@) && id
                == fs_conn.fsv().dirs[dir_index(fs_conn.fsv().dirs, self.path@)].id,
            r matches Err(e) ==> e matches FSError::DoesNotExist(s) && s@ == self.path@,
    {
        match fs_conn.find_dir(self.path.as_str()) {
            Some(i) => {
                proof {
                    lemma_dir_index_unique(fs_conn.fsv(), self.path@, i as int);
                }
                Ok(fs_conn.dirs[i].id)
            },
            None => Err(FSError::DoesNotExist(self.path.clone())),
        }
    }

    /// Inserts this directory's row. Fails when the path is taken,
    /// and the tables are then unchanged.
    pub fn mk(&self, fs_conn: &mut FSConnection) -> (r: Result<(), FSError>)
        requires
            old(fs_conn).wf(),
            self.wf(),
        ensures
            final(fs_conn).wf(),
            r is Ok <==> dir_mk_ok(old(fs_conn).fsv(), self.path@),
            r is Ok ==> final(fs_conn).fsv() == dir_mk_tr(old(fs_conn).fsv(), self.path@),
            r is Err ==> final(fs_conn).fsv() == old(fs_conn).fsv(),
            r matches Err(e) ==> e matches FSError::Storage(_),
    {
        let ghost v = fs_conn.fsv();
        match fs_conn.find_dir(self.path.as_str()) {
            Some(i) => {
                proof {
                    assert(v.dirs[i as int].path == self.path@);
                    assert(has_dir(v.dirs, self.path@));
                }
                Err(FSError::Storage("UNIQUE constraint failed".to_owned()))
            },
            None => {
                if fs_conn.next_dir_id >= i64::MAX as u64 {
                    return Err(FSError::Storage("directory id space exhausted".to_owned()));
                }
                let row = DirRow { id: fs_conn.next_dir_id, path: self.path.clone() };
                fs_conn.dirs.push(row);
                fs_conn.next_dir_id = fs_conn.next_dir_id + 1;
                proof {
                    assert(dir_views(fs_conn.dirs@) =~= v.dirs.push(
                        DirRec { id: v.next_dir_id, path: self.path@ },
                    ));
                    assert(fs_conn.fsv() =~= dir_mk_tr(v, self.path@));
                    lemma_dir_mk_wf(v, self.path@);
                }
                Ok(())
            },
        }
    }

    /// Deletes this directory's row; the files in it cascade away,
    /// sub-directories stay. A no-op on the directory table when no
    /// row matches.
    pub fn del(&self, fs_conn: &mut FSConnection) -> (r: Result<(), FSError>)
        requires
            old(fs_conn).wf(),
        ensures
            final(fs_conn).wf(),
            r is Ok,
            final(fs_conn).fsv() == dir_del_tr(old(fs_conn).fsv(), self.path@),
    {
        let ghost v = fs_conn.fsv();
        let ghost p = self.path@;
        match fs_conn.find_dir(self.path.as_str()) {
            Some(i) => {
                proof {
                    lemma_dir_index_unique(v, p, i as int);
                }
                fs_conn.dirs.remove(i);
                proof {
                    assert(dir_views(fs_conn.dirs@) =~= v.dirs.remove(i as int));
                }
            },
            None => {},
        }
        let mut kept: Vec<FileRow> = Vec::new();
        let mut i: usize = 0;
        proof {
            reveal_with_fuel(Seq::filter, 2);
            assert(v.files.subrange(0, 0) =~= Seq::<FileRec>::empty());
            assert(file_views(kept@) =~= files_outside(v.files.subrange(0, 0), p));
        }
        while i < fs_conn.files.len()
            invariant
                i <= fs_conn.files.len(),
                v.files == file_views(fs_conn.files@),
                v.files.len() == fs_conn.files@.len(),
                p == self.path@,
                file_views(kept@) == files_outside(v.files.subrange(0, i as int), p),
            decreases fs_conn.files.len() - i,
        {
            let ghost pre = v.files.subrange(0, i as int);
            let ghost cur = v.files.subrange(0, i + 1);
            proof {
                reveal_with_fuel(Seq::filter, 2);
                assert(cur.drop_last() =~= pre);
                assert(cur.last() == v.files[i as int]);
            }
            if !str_eq(fs_conn.files[i].directory.as_str(), self.path.as_str()) {
                kept.push(fs_conn.files[i].duplicate());
                proof {
                    assert(file_views(kept@) =~= files_outside(pre, p).push(v.files[i as int]));
                }
            }
            i += 1;
        }
        proof {
            assert(v.files.subrange(0, v.files.len() as int) =~= v.files);
        }
        fs_conn.files = kept;
        proof {
            assert(fs_conn.fsv() =~= dir_del_tr(v, p));
            lemma_dir_del_wf(v, p);
        }
        Ok(())
    }

    /// The sibling path of this directory under a new basename: pure
    /// path algebra, no table is touched.
    pub fn rename(&self, name: &str) -> (r: Result<String, FSError>)
        ensures
            r is Ok,
            r matches Ok(s) ==> s@ == dir_rename_path(self.path@, name@) && is_dir_path(s@),
    {
        Ok(rename_dir_path(self.path.as_str(), name))
    }

    /// Moves this directory to `path`: every directory row whose path
    /// has this one's as a prefix — this one's own included — has the
    /// prefix replaced, and the files' directory column cascades in
    /// step. Fails when a rewritten path or file key would collide,
    /// and the tables are then unchanged.
    pub fn mv(&mut self, path: &Directory, fs_conn: &mut FSConnection) -> (r: Result<
        (),
        FSError,
    >)
        requires
            old(fs_conn).wf(),
            old(self).wf(),
            path.wf(),
        ensures
            final(fs_conn).wf(),
            final(self).wf(),
            r is Ok <==> dir_mv_ok(old(fs_conn).fsv(), old(self).path@, path.path@),
            r is Ok ==> final(fs_conn).fsv() == dir_mv_tr(
                old(fs_conn).fsv(),
                old(self).path@,
                path.path@,
            ) && final(self).path@ == path.path@,
            r is Err ==> final(fs_conn).fsv() == old(fs_conn).fsv() && *final(self) == *old(
                self,
            ),
            r matches Err(e) ==> e matches FSError::Storage(_),
    {
        let ghost v = fs_conn.fsv();
        let ghost p = self.path@;
        let ghost q = path.path@;
        let nd = fs_conn.dirs.len();
        let nf = fs_conn.files.len();

        let mut rew_d: Vec<String> = Vec::new();
        let mut i: usize = 0;
        while i < nd
            invariant
                i <= nd,
                nd == fs_conn.dirs@.len(),
                v == fs_conn.fsv(),
                v.dirs.len() == nd,
                p == self.path@,
                q == path.path@,
                rew_d@.len() == i,
                forall|k: int|
                    0 <= k < i ==> rew_d@[k]@ == rewrite_prefix(
                        (#[trigger] v.dirs[k]).path,
                        p,
                        q,
                    ),
            decreases nd - i,
        {
            rew_d.push(
                replace_prefix(fs_conn.dirs[i].path.as_str(), self.path.as_str(),
                    path.path.as_str()),
            );
            proof {
                assert(v.dirs[i as int] == fs_conn.dirs@[i as int]@);
                assert(rew_d@[i as int]@ == rewrite_prefix(v.dirs[i as int].path, p, q));
            }
            i += 1;
        }

        let mut rew_f: Vec<String> = Vec::new();
        let mut i: usize = 0;
        while i < nf
            invariant
                i <= nf,
                nf == fs_conn.files@.len(),
                v == fs_conn.fsv(),
                v.files.len() == nf,
                p == self.path@,
                q == path.path@,
                rew_f@.len() == i,
                forall|k: int|
                    0 <= k < i ==> rew_f@[k]@ == rewrite_prefix(
                        (#[trigger] v.files[k]).directory,
                        p,
                        q,
                    ),
            decreases nf - i,
        {
            rew_f.push(
                replace_prefix(fs_conn.files[i].directory.as_str(), self.path.as_str(),
                    path.path.as_str()),
            );
            proof {
                assert(v.files[i as int] == fs_conn.files@[i as int]@);
                assert(rew_f@[i as int]@ == rewrite_prefix(v.files[i as int].directory, p, q));
            }
            i += 1;
        }

        let mut i: usize = 0;
        while i < nd
            invariant
                v == old(fs_conn).fsv(),
                old(fs_conn).wf(),
                old(self).wf(),
                *self == *old(self),
                p == old(self).path@,
                q == path.path@,
                i <= nd,
                nd == fs_conn.dirs@.len(),
                v == fs_conn.fsv(),
                v.dirs.len() == nd,
                rew_d@.len() == nd,
                forall|k: int|
                    0 <= k < nd ==> rew_d@[k]@ == rewrite_prefix(
                        (#[trigger] v.dirs[k]).path,
                        p,
                        q,
                    ),
                forall|a: int, b: int|
                    #![trigger v.dirs[a], v.dirs[b]]
                    0 <= a < b < nd && a < i ==> rewrite_prefix(v.dirs[a].path, p, q)
                        != rewrite_prefix(v.dirs[b].path, p, q),
            decreases nd - i,
        {
            let mut j: usize = i + 1;
            while j < nd
                invariant
                    v == old(fs_conn).fsv(),
                    old(fs_conn).wf(),
                    old(self).wf(),
                    *self == *old(self),
                    p == old(self).path@,
                    q == path.path@,
                    i < nd,
                    i < j <= nd,
                    nd == fs_conn.dirs@.len(),
                    v == fs_conn.fsv(),
                    v.dirs.len() == nd,
                    rew_d@.len() == nd,
                    forall|k: int|
                        0 <= k < nd ==> rew_d@[k]@ == rewrite_prefix(
                            (#[trigger] v.dirs[k]).path,
                            p,
                            q,
                        ),
                    forall|b: int|
                        i < b < j ==> rewrite_prefix((#[trigger] v.dirs[i as int]).path, p, q)
                            != rewrite_prefix(v.dirs[b].path, p, q),
                decreases nd - j,
            {
                if str_eq(rew_d[i].as_str(), rew_d[j].as_str()) {
                    proof {
                        assert(rewrite_prefix(v.dirs[i as int].path, p, q) == rewrite_prefix(
                            v.dirs[j as int].path,
                            p,
                            q,
                        ));
                        assert(!dir_mv_ok(v, p, q)) by {
                            if dir_mv_ok(v, p, q) {
                                assert(rewrite_prefix((v.dirs[i as int]).path, p, q)
                                    != rewrite_prefix((v.dirs[j as int]).path, p, q));
                            }
                        }
                    }
                    return Err(FSError::Storage("UNIQUE constraint failed".to_owned()));
                }
                j += 1;
            }
            i += 1;
            proof {
                assert forall|b: int|
                    i - 1 < b < nd implies rewrite_prefix(
                    (#[trigger] v.dirs[b]).path,
                    p,
                    q,
                ) != rewrite_prefix(v.dirs[i - 1].path, p, q) by {}
            }
        }

        let mut i: usize = 0;
        while i < nf
            invariant
                v == old(fs_conn).fsv(),
                old(fs_conn).wf(),
                old(self).wf(),
                *self == *old(self),
                p == old(self).path@,
                q == path.path@,
                i <= nf,
                nf == fs_conn.files@.len(),
                v == fs_conn.fsv(),
                v.files.len() == nf,
                rew_f@.len() == nf,
                forall|k: int|
                    0 <= k < nf ==> rew_f@[k]@ == rewrite_prefix(
                        (#[trigger] v.files[k]).directory,
                        p,
                        q,
                    ),
                forall|a: int, b: int|
                    #![trigger v.files[a], v.files[b]]
                    0 <= a < b < nf && a < i ==> !(v.files[a].name == v.files[b].name
                        && rewrite_prefix(v.files[a].directory, p, q) == rewrite_prefix(
                        v.files[b].directory,
                        p,
                        q,
                    )),
            decreases nf - i,
        {
            let mut j: usize = i + 1;
            while j < nf
                invariant
                    v == old(fs_conn).fsv(),
                    old(fs_conn).wf(),
                    old(self).wf(),
                    *self == *old(self),
                    p == old(self).path@,
                    q == path.path@,
                    i < nf,
                    i < j <= nf,
                    nf == fs_conn.files@.len(),
                    v == fs_conn.fsv(),
                    v.files.len() == nf,
                    rew_f@.len() == nf,
                    forall|k: int|
                        0 <= k < nf ==> rew_f@[k]@ == rewrite_prefix(
                            (#[trigger] v.files[k]).directory,
                            p,
                            q,
                        ),
                    forall|b: int|
                        i < b < j ==> !((#[trigger] v.files[b]).name == v.files[i as int].name
                            && rewrite_prefix(v.files[b].directory, p, q) == rewrite_prefix(
                            v.files[i as int].directory,
                            p,
                            q,
                        )),
                decreases nf - j,
            {
                if str_eq(fs_conn.files[i].name.as_str(), fs_conn.files[j].name.as_str())
                    && str_eq(rew_f[i].as_str(), rew_f[j].as_str()) {
                    proof {
                        assert(!dir_mv_ok(v, p, q)) by {
                            if dir_mv_ok(v, p, q) {
                                assert(!((v.files[i as int]).name == (v.files[j as int]).name
                                    && rewrite_prefix(v.files[i as int].directory, p, q)
                                    == rewrite_prefix(v.files[j as int].directory, p, q)));
                            }
                        }
                    }
                    return Err(FSError::Storage("UNIQUE constraint failed".to_owned()));
                }
                j += 1;
            }
            i += 1;
            proof {
                assert forall|b: int|
                    i - 1 < b < nf implies !((#[trigger] v.files[b]).name
                        == v.files[i - 1].name && rewrite_prefix(v.files[b].directory, p, q)
                        == rewrite_prefix(v.files[i - 1].directory, p, q)) by {
                    assert(!(v.files[i - 1].name == v.files[b].name && rewrite_prefix(
                        v.files[i - 1].directory,
                        p,
                        q,
                    ) == rewrite_prefix(v.files[b].directory, p, q)));
                }
            }
        }

        proof {
            assert(dir_mv_ok(v, p, q));
        }

        let mut new_dirs: Vec<DirRow> = Vec::new();
        let mut i: usize = 0;
        while i < nd
            invariant
                i <= nd,
                nd == fs_conn.dirs@.len(),
                v == fs_conn.fsv(),
                v.dirs.len() == nd,
                rew_d@.len() == nd,
                forall|k: int|
                    0 <= k < nd ==> rew_d@[k]@ == rewrite_prefix(
                        (#[trigger] v.dirs[k]).path,
                        p,
                        q,
                    ),
                new_dirs@.len() == i,
                forall|k: int|
                    0 <= k < i ==> (#[trigger] new_dirs@[k])@ == rewrite_dir_rec(
                        v.dirs[k],
                        p,
                        q,
                    ),
            decreases nd - i,
        {
            new_dirs.push(DirRow { id: fs_conn.dirs[i].id, path: rew_d[i].clone() });
            i += 1;
        }

        let mut new_files: Vec<FileRow> = Vec::new();
        let mut i: usize = 0;
        while i < nf
            invariant
                i <= nf,
                nf == fs_conn.files@.len(),
                v == fs_conn.fsv(),
                v.files.len() == nf,
                rew_f@.len() == nf,
                forall|k: int|
                    0 <= k < nf ==> rew_f@[k]@ == rewrite_prefix(
                        (#[trigger] v.files[k]).directory,
                        p,
                        q,
                    ),
                new_files@.len() == i,
                forall|k: int|
                    0 <= k < i ==> (#[trigger] new_files@[k])@ == rewrite_file_rec(
                        v.files[k],
                        p,
                        q,
                    ),
            decreases nf - i,
        {
            new_files.push(
                FileRow {
                    id: fs_conn.files[i].id,
                    name: fs_conn.files[i].name.clone(),
                    kind: fs_conn.files[i].kind,
                    data: fs_conn.files[i].data.clone(),
                    directory: rew_f[i].clone(),
                },
            );
            i += 1;
        }

        fs_conn.dirs = new_dirs;
        fs_conn.files = new_files;
        self.path = path.path.clone();
        proof {
            assert(dir_views(fs_conn.dirs@) =~= v.dirs.map_values(
                |r: DirRec| rewrite_dir_rec(r, p, q),
            ));
            assert(file_views(fs_conn.files@) =~= v.files.map_values(
                |r: FileRec| rewrite_file_rec(r, p, q),
            ));
            assert(fs_conn.fsv() =~= dir_mv_tr(v, p, q));
            lemma_dir_mv_wf(v, p, q);
        }
        Ok(())
    }

    /// The file rows lying exactly in this directory.
    pub fn files(&self, fs_conn: &FSConnection) -> (r: Result<Vec<FileRow>, FSError>)
        ensures
            r is Ok,
            r matches Ok(rows) ==> file_views(rows@) == files_in(
                fs_conn.fsv().files,
                self.path@,
            ),
    {
        let ghost fv = fs_conn.fsv().files;
        let mut out: Vec<FileRow> = Vec::new();
        let mut i: usize = 0;
        proof {
            reveal_with_fuel(Seq::filter, 2);
            assert(fv.subrange(0, 0) =~= Seq::<FileRec>::empty());
            assert(file_views(out@) =~= files_in(fv.subrange(0, 0), self.path@));
        }
        while i < fs_conn.files.len()
            invariant
                i <= fs_conn.files.len(),
                fv == fs_conn.fsv().files,
                fv.len() == fs_conn.files@.len(),
                file_views(out@) == files_in(fv.subrange(0, i as int), self.path@),
            decreases fs_conn.files.len() - i,
        {
            let ghost pre = fv.subrange(0, i as int);
            let ghost cur = fv.subrange(0, i + 1);
            proof {
                reveal_with_fuel(Seq::filter, 2);
                assert(cur.drop_last() =~= pre);
                assert(cur.last() == fv[i as int]);
            }
            if str_eq(fs_conn.files[i].directory.as_str(), self.path.as_str()) {
                out.push(fs_conn.files[i].duplicate());
                proof {
                    assert(file_views(out@) =~= files_in(pre, self.path@).push(fv[i as int]));
                }
            }
            i += 1;
        }
        proof {
            assert(fv.subrange(0, fv.len() as int) =~= fv);
        }
        Ok(out)
    }

    /// The directory rows strictly below this one, at any depth.
    pub fn dirs(&self, fs_conn: &FSConnection) -> (r: Result<Vec<DirRow>, FSError>)
        ensures
            r is Ok,
            r matches Ok(rows) ==> dir_views(rows@) == dirs_under(fs_conn.fsv().dirs, self.path@),
    {
        let ghost dv = fs_conn.fsv().dirs;
        let mut out: Vec<DirRow> = Vec::new();
        let mut i: usize = 0;
        proof {
            reveal_with_fuel(Seq::filter, 2);
            assert(dv.subrange(0, 0) =~= Seq::<DirRec>::empty());
            assert(dir_views(out@) =~= dirs_under(dv.subrange(0, 0), self.path@));
        }
        while i < fs_conn.dirs.len()
            invariant
                i <= fs_conn.dirs.len(),
                dv == fs_conn.fsv().dirs,
                dv.len() == fs_conn.dirs@.len(),
                dir_views(out@) == dirs_under(dv.subrange(0, i as int), self.path@),
            decreases fs_conn.dirs.len() - i,
        {
            let ghost pre = dv.subrange(0, i as int);
            let ghost cur = dv.subrange(0, i + 1);
            proof {
                reveal_with_fuel(Seq::filter, 2);
                assert(cur.drop_last() =~= pre);
                assert(cur.last() == dv[i as int]);
            }
            if str_has_prefix(fs_conn.dirs[i].path.as_str(), self.path.as_str())
                && fs_conn.dirs[i].path.as_str().unicode_len()
                > self.path.as_str().unicode_len() {
                out.push(fs_conn.dirs[i].duplicate());
                proof {
                    assert(dir_views(out@) =~= dirs_under(pre, self.path@).push(dv[i as int]));
                }
            }
            i += 1;
        }
        proof {
            assert(dv.subrange(0, dv.len() as int) =~= dv);
        }
        Ok(out)
    }

    /// The directory's contents: its file rows, and the directory
    /// rows below it.
    pub fn contents(&self, fs_conn: &FSConnection) -> (r: Result<
        (Vec<FileRow>, Vec<DirRow>),
        FSError,
    >)
        ensures
            r is Ok,
            r matches Ok(pair) ==> file_views(pair.0@) == files_in(
                fs_conn.fsv().files,
                self.path@,
            ) && dir_views(pair.1@) == dirs_under(fs_conn.fsv().dirs, self.path@),
    {
        let files = match self.files(fs_conn) {
            Ok(rows) => rows,
            Err(e) => {
                return Err(e);
            },
        };
        let dirs = match self.dirs(fs_conn) {
            Ok(rows) => rows,
            Err(e) => {
                return Err(e);
            },
        };
        Ok((files, dirs))
    }

    /// Every file row in or below this directory, and every directory
    /// row below it (this one's own row excluded).
    pub fn recurse(&self, fs_conn: &FSConnection) -> (r: Result<
        (Vec<FileRow>, Vec<DirRow>),
        FSError,
    >)
        ensures
            r is Ok,
            r matches Ok(pair) ==> file_views(pair.0@) == files_under(
                fs_conn.fsv().files,
                self.path@,
            ) && dir_views(pair.1@) == dirs_under_excl(fs_conn.fsv().dirs, self.path@),
    {
        let ghost fv = fs_conn.fsv().files;
        let mut out_f: Vec<FileRow> = Vec::new();
        let mut i: usize = 0;
        proof {
            reveal_with_fuel(Seq::filter, 2);
            assert(fv.subrange(0, 0) =~= Seq::<FileRec>::empty());
            assert(file_views(out_f@) =~= files_under(fv.subrange(0, 0), self.path@));
        }
        while i < fs_conn.files.len()
            invariant
                i <= fs_conn.files.len(),
                fv == fs_conn.fsv().files,
                fv.len() == fs_conn.files@.len(),
                file_views(out_f@) == files_under(fv.subrange(0, i as int), self.path@),
            decreases fs_conn.files.len() - i,
        {
            let ghost pre = fv.subrange(0, i as int);
            let ghost cur = fv.subrange(0, i + 1);
            proof {
                reveal_with_fuel(Seq::filter, 2);
                assert(cur.drop_last() =~= pre);
                assert(cur.last() == fv[i as int]);
            }
            if str_has_prefix(fs_conn.files[i].directory.as_str(), self.path.as_str()) {
                out_f.push(fs_conn.files[i].duplicate());
                proof {
                    assert(file_views(out_f@) =~= files_under(pre, self.path@).push(
                        fv[i as int],
                    ));
                }
            }
            i += 1;
        }
        proof {
            assert(fv.subrange(0, fv.len() as int) =~= fv);
        }

        let ghost dv = fs_conn.fsv().dirs;
        let mut out_d: Vec<DirRow> = Vec::new();
        let mut i: usize = 0;
        proof {
            reveal_with_fuel(Seq::filter, 2);
            assert(dv.subrange(0, 0) =~= Seq::<DirRec>::empty());
            assert(dir_views(out_d@) =~= dirs_under_excl(dv.subrange(0, 0), self.path@));
        }
        while i < fs_conn.dirs.len()
            invariant
                i <= fs_conn.dirs.len(),
                dv == fs_conn.fsv().dirs,
                dv.len() == fs_conn.dirs@.len(),
                dir_views(out_d@) == dirs_under_excl(dv.subrange(0, i as int), self.path@),
            decreases fs_conn.dirs.len() - i,
        {
            let ghost pre = dv.subrange(0, i as int);
            let ghost cur = dv.subrange(0, i + 1);
            proof {
                reveal_with_fuel(Seq::filter, 2);
                assert(cur.drop_last() =~= pre);
                assert(cur.last() == dv[i as int]);
            }
            if str_has_prefix(fs_conn.dirs[i].path.as_str(), self.path.as_str()) && !str_eq(
                fs_conn.dirs[i].path.as_str(),
                self.path.as_str(),
            ) {
                out_d.push(fs_conn.dirs[i].duplicate());
                proof {
                    assert(dir_views(out_d@) =~= dirs_under_excl(pre, self.path@).push(
                        dv[i as int],
                    ));
                }
            }
            i += 1;
        }
        proof {
            assert(dv.subrange(0, dv.len() as int) =~= dv);
        }
        Ok((out_f, out_d))
    }

    /// The directory handle of the row with the given storage id.
    pub fn from_id(id: u64, fs_conn: &FSConnection) -> (r: Result<Directory, FSError>)
        requires
            fs_conn.wf(),
        ensures
            r is Ok <==> has_dir_id(fs_conn.fsv().dirs, id as int),
            r matches Ok(d) ==> d.path@ == fs_conn.fsv().dirs[dir_id_index(
                fs_conn.fsv().dirs,
                id as int,
            )].path && d.wf(),
            r matches Err(e) ==> e matches FSError::DoesNotExist(_),
    {
        match fs_conn.find_dir_by_id(id) {
            Some(i) => {
                proof {
                    lemma_dir_id_index_unique(fs_conn.fsv(), id as int, i as int);
                    assert(is_dir_path(fs_conn.fsv().dirs[i as int].path));
                }
                Ok(Directory { path: fs_conn.dirs[i].path.clone() })
            },
            None => Err(FSError::DoesNotExist("no directory row has this id".to_owned())),
        }
    }
}

/// Whether `name` is a valid file name: nonempty, without slashes.
pub fn check_file_name(name: &str) -> (r: bool)
    ensures
        r == is_file_name(name@),
{
    let n = name.unicode_len();
    if n == 0 {
        return false;
    }
    let mut i: usize = 0;
    while i < n
        invariant
            n == name@.len(),
            i <= n,
            forall|k: int| 0 <= k < i ==> name@[k] != '/',
        decreases n - i,
    {
        if name.get_char(i) == '/' {
            return false;
        }
        i += 1;
    }
    true
}

impl File {
    /// The handle's invariant.
    pub open spec fn wf(&self) -> bool {
        &&& is_file_name(self.name@)
        &&& self.directory.wf()
    }

    /// A file handle for any path string: the path is normalized, the
    /// trailing component names the file, the rest its directory.
    /// Paths denoting the root have no trailing component and fail.
    pub fn new(path: &str) -> (r: Result<File, FSError>)
        ensures
            r is Ok <==> norm_comps(path@).len() > 0,
            r matches Ok(f) ==> {
                &&& f.name@ == norm_comps(path@).last()
                &&& f.directory.path@ == join_dir(norm_comps(path@).drop_last())
                &&& f.wf()
            },
            r matches Err(e) ==> e matches FSError::PathIsNotAFile(s) && s@ == path@,
    {
        match normalize_file(path) {
            Some((dir, name)) => Ok(
                File { name, directory: Directory { path: dir } },
            ),
            None => Err(FSError::PathIsNotAFile(path.to_owned())),
        }
    }

    /// Whether this file's row is present.
    pub fn exists_in(&self, fs_conn: &FSConnection) -> (r: Result<bool, FSError>)
        ensures
            r is Ok,
            r matches Ok(b) ==> b == has_file(
                fs_conn.fsv().files,
                self.directory.path@,
                self.name@,
            ),
    {
        Ok(fs_conn.find_file(self.directory.path.as_str(), self.name.as_str()).is_some())
    }

    /// The full path string of this file, for error reports.
    fn full_path(&self) -> (r: String)
        ensures
            r@ == self.directory.path@ + self.name@,
    {
        let mut out = self.directory.path.clone();
        out.append(self.name.as_str());
        out
    }

    /// The storage id of this file's row; the FUSE adapter derives the
    /// inode from it.
    pub fn get_id(&self, fs_conn: &FSConnection) -> (r: Result<u64, FSError>)
        requires
            fs_conn.wf(),
        ensures
            r is Ok <==> has_file(fs_conn.fsv().files, self.directory.path@, self.name@),
            r matches Ok(id) ==> id == file_at(
                fs_conn.fsv().files,
                self.directory.path@,
                self.name@,
            ).id,
            r matches Err(e) ==> e matches FSError::DoesNotExist(s) && s@ == self.directory.path@
                + self.name@,
    {
        match fs_conn.find_file(self.directory.path.as_str(), self.name.as_str()) {
            Some(i) => {
                proof {
                    lemma_file_index_unique(
                        fs_conn.fsv(),
                        self.directory.path@,
                        self.name@,
                        i as int,
                    );
                }
                Ok(fs_conn.files[i].id)
            },
            None => Err(FSError::DoesNotExist(self.full_path())),
        }
    }

    /// Reads this file's row: its data and its kind string.
    pub fn read(&self, fs_conn: &FSConnection) -> (r: Result<(String, String), FSError>)
        requires
            fs_conn.wf(),
        ensures
            r is Ok <==> has_file(fs_conn.fsv().files, self.directory.path@, self.name@),
            r matches Ok(pair) ==> {
                let rec = file_at(fs_conn.fsv().files, self.directory.path@, self.name@);
                pair.0@ == rec.data && pair.1@ == kind_str(rec.kind)
            },
            r matches Err(e) ==> e matches FSError::DoesNotExist(s) && s@ == self.directory.path@
                + self.name@,
    {
        match fs_conn.find_file(self.directory.path.as_str(), self.name.as_str()) {
            Some(i) => {
                proof {
                    lemma_file_index_unique(
                        fs_conn.fsv(),
                        self.directory.path@,
                        self.name@,
                        i as int,
                    );
                }
                Ok((fs_conn.files[i].data.clone(), fs_conn.files[i].kind.to_string()))
            },
            None => Err(FSError::DoesNotExist(self.full_path())),
        }
    }

    /// Inserts this file's row with the given data and kind. Fails
    /// when the directory row is missing or the key is taken, and the
    /// tables are then unchanged.
    pub fn mk(&self, data: &str, ftype: &FileType, fs_conn: &mut FSConnection) -> (r: Result<
        (),
        FSError,
    >)
        requires
            old(fs_conn).wf(),
            self.wf(),
        ensures
            final(fs_conn).wf(),
            r is Ok <==> file_mk_ok(old(fs_conn).fsv(), self.directory.path@, self.name@),
            r is Ok ==> final(fs_conn).fsv() == file_mk_tr(
                old(fs_conn).fsv(),
                self.directory.path@,
                self.name@,
                data@,
                *ftype,
            ),
            r is Err ==> final(fs_conn).fsv() == old(fs_conn).fsv(),
            r matches Err(e) ==> e matches FSError::Storage(_),
    {
        let ghost v = fs_conn.fsv();
        let ghost d = self.directory.path@;
        let ghost n = self.name@;
        match fs_conn.find_dir(self.directory.path.as_str()) {
            None => Err(FSError::Storage("FOREIGN KEY constraint failed".to_owned())),
            Some(di) => {
                proof {
                    assert(v.dirs[di as int].path == d);
                    assert(has_dir(v.dirs, d));
                }
                match fs_conn.find_file(self.directory.path.as_str(), self.name.as_str()) {
                    Some(fi) => {
                        proof {
                            assert(v.files[fi as int].directory == d && v.files[fi as int].name
                                == n);
                            assert(has_file(v.files, d, n));
                        }
                        Err(FSError::Storage("UNIQUE constraint failed".to_owned()))
                    },
                    None => {
                        if fs_conn.next_file_id >= i64::MAX as u64 {
                            return Err(FSError::Storage("file id space exhausted".to_owned()));
                        }
                        let row = FileRow {
                            id: fs_conn.next_file_id,
                            name: self.name.clone(),
                            kind: *ftype,
                            data: data.to_owned(),
                            directory: self.directory.path.clone(),
                        };
                        fs_conn.files.push(row);
                        fs_conn.next_file_id = fs_conn.next_file_id + 1;
                        proof {
                            assert(fs_conn.fsv().files =~= v.files.push(
                                FileRec { id: v.next_file_id, name: n, kind: *ftype, data: data@,
                                    directory: d },
                            ));
                            assert(fs_conn.fsv() =~= file_mk_tr(v, d, n, data@, *ftype));
                            lemma_file_mk_wf(v, d, n, data@, *ftype);
                        }
                        Ok(())
                    },
                }
            },
        }
    }

    /// Deletes this file's row; a no-op when no row matches.
    pub fn del(&self, fs_conn: &mut FSConnection) -> (r: Result<(), FSError>)
        requires
            old(fs_conn).wf(),
        ensures
            final(fs_conn).wf(),
            r is Ok,
            final(fs_conn).fsv() == file_del_tr(
                old(fs_conn).fsv(),
                self.directory.path@,
                self.name@,
            ),
    {
        let ghost v = fs_conn.fsv();
        let ghost d = self.directory.path@;
        let ghost n = self.name@;
        match fs_conn.find_file(self.directory.path.as_str(), self.name.as_str()) {
            Some(i) => {
                proof {
                    lemma_file_index_unique(v, d, n, i as int);
                    lemma_file_del_wf(v, d, n);
                }
                fs_conn.files.remove(i);
                proof {
                    assert(file_views(fs_conn.files@) =~= v.files.remove(i as int));
                    assert(fs_conn.fsv() =~= file_del_tr(v, d, n));
                }
                Ok(())
            },
            None => {
                proof {
                    assert(fs_conn.fsv() =~= file_del_tr(v, d, n));
                }
                Ok(())
            },
        }
    }

    /// Renames this file's row to `name` and carries the handle
    /// along. With no matching row only the handle changes; a taken
    /// key or a malformed name fails and changes nothing.
    pub fn rename(&mut self, name: &str, fs_conn: &mut FSConnection) -> (r: Result<(), FSError>)
        requires
            old(fs_conn).wf(),
            old(self).wf(),
        ensures
            final(fs_conn).wf(),
            final(self).wf(),
            r is Ok <==> is_file_name(name@) && file_rename_ok(
                old(fs_conn).fsv(),
                old(self).directory.path@,
                old(self).name@,
                name@,
            ),
            r is Ok ==> final(fs_conn).fsv() == file_rename_tr(
                old(fs_conn).fsv(),
                old(self).directory.path@,
                old(self).name@,
                name@,
            ) && final(self).name@ == name@ && final(self).directory == old(self).directory,
            r is Err ==> final(fs_conn).fsv() == old(fs_conn).fsv() && *final(self) == *old(self),
            r matches Err(e) ==> (e matches FSError::Storage(_) || e matches
                FSError::PathIsNotAFile(_)),
    {
        let ghost v = fs_conn.fsv();
        let ghost d = self.directory.path@;
        let ghost n = self.name@;
        if !check_file_name(name) {
            return Err(FSError::PathIsNotAFile(name.to_owned()));
        }
        match fs_conn.find_file(self.directory.path.as_str(), self.name.as_str()) {
            Some(i) => {
                proof {
                    lemma_file_index_unique(v, d, n, i as int);
                }
                if !str_eq(name, self.name.as_str()) {
                    match fs_conn.find_file(self.directory.path.as_str(), name) {
                        Some(j) => {
                            proof {
                                assert(v.files[j as int].directory == d && v.files[j as int].name
                                    == name@);
                                assert(has_file(v.files, d, name@));
                            }
                            return Err(FSError::Storage("UNIQUE constraint failed".to_owned()));
                        },
                        None => {},
                    }
                }
                let row = FileRow {
                    id: fs_conn.files[i].id,
                    name: name.to_owned(),
                    kind: fs_conn.files[i].kind,
                    data: fs_conn.files[i].data.clone(),
                    directory: fs_conn.files[i].directory.clone(),
                };
                proof {
                    let rec = FileRec { name: name@, ..v.files[i as int] };
                    assert(row@ == rec);
                    assert forall|k: int|
                        0 <= k < v.files.len() && k != i implies !((
                        #[trigger] v.files[k]).directory == rec.directory && v.files[k].name
                            == rec.name) by {
                        if name@ == n {
                        } else {
                            assert(!has_file(v.files, d, name@));
                        }
                    }
                    lemma_file_update_wf(v, i as int, rec);
                }
                fs_conn.set_file_row(i, row);
                self.name = name.to_owned();
                proof {
                    assert(fs_conn.fsv() =~= file_rename_tr(v, d, n, name@));
                }
                Ok(())
            },
            None => {
                self.name = name.to_owned();
                proof {
                    assert(fs_conn.fsv() =~= file_rename_tr(v, d, n, name@));
                }
                Ok(())
            },
        }
    }

    /// Moves this file's row into `directory` and carries the handle
    /// along. With no matching row only the handle changes; a missing
    /// target directory or a taken key there fails and changes
    /// nothing.
    pub fn mv(&mut self, directory: Directory, fs_conn: &mut FSConnection) -> (r: Result<
        (),
        FSError,
    >)
        requires
            old(fs_conn).wf(),
            old(self).wf(),
            directory.wf(),
        ensures
            final(fs_conn).wf(),
            final(self).wf(),
            r is Ok <==> file_mv_ok(
                old(fs_conn).fsv(),
                old(self).directory.path@,
                old(self).name@,
                directory.path@,
            ),
            r is Ok ==> final(fs_conn).fsv() == file_mv_tr(
                old(fs_conn).fsv(),
                old(self).directory.path@,
                old(self).name@,
                directory.path@,
            ) && final(self).directory == directory && final(self).name == old(self).name,
            r is Err ==> final(fs_conn).fsv() == old(fs_conn).fsv() && *final(self) == *old(self),
            r matches Err(e) ==> e matches FSError::Storage(_),
    {
        let ghost v = fs_conn.fsv();
        let ghost d = self.directory.path@;
        let ghost n = self.name@;
        let ghost nd = directory.path@;
        match fs_conn.find_file(self.directory.path.as_str(), self.name.as_str()) {
            Some(i) => {
                proof {
                    lemma_file_index_unique(v, d, n, i as int);
                }
                match fs_conn.find_dir(directory.path.as_str()) {
                    None => Err(FSError::Storage("FOREIGN KEY constraint failed".to_owned())),
                    Some(di) => {
                        proof {
                            assert(v.dirs[di as int].path == nd);
                            assert(has_dir(v.dirs, nd));
                        }
                        if !str_eq(directory.path.as_str(), self.directory.path.as_str()) {
                            match fs_conn.find_file(directory.path.as_str(), self.name.as_str()) {
                                Some(j) => {
                                    proof {
                                        assert(v.files[j as int].directory == nd
                                            && v.files[j as int].name == n);
                                        assert(has_file(v.files, nd, n));
                                    }
                                    return Err(
                                        FSError::Storage("UNIQUE constraint failed".to_owned()),
                                    );
                                },
                                None => {},
                            }
                        }
                        let row = FileRow {
                            id: fs_conn.files[i].id,
                            name: fs_conn.files[i].name.clone(),
                            kind: fs_conn.files[i].kind,
                            data: fs_conn.files[i].data.clone(),
                            directory: directory.path.clone(),
                        };
                        proof {
                            let rec = FileRec { directory: nd, ..v.files[i as int] };
                            assert(row@ == rec);
                            assert forall|k: int|
                                0 <= k < v.files.len() && k != i implies !((#[trigger]
                                v.files[k]).directory == rec.directory && v.files[k].name
                                    == rec.name) by {
                                if nd == d {
                                } else {
                                    assert(!has_file(v.files, nd, n));
                                }
                            }
                            lemma_file_update_wf(v, i as int, rec);
                        }
                        fs_conn.set_file_row(i, row);
                        self.directory = directory;
                        proof {
                            assert(fs_conn.fsv() =~= file_mv_tr(v, d, n, nd));
                        }
                        Ok(())
                    },
                }
            },
            None => {
                self.directory = directory;
                proof {
                    assert(fs_conn.fsv() =~= file_mv_tr(v, d, n, nd));
                }
                Ok(())
            },
        }
    }

    /// Writes this file's row: data and kind together. A no-op when
    /// no row matches.
    pub fn write(&mut self, data: &str, ftype: FileType, fs_conn: &mut FSConnection) -> (r: Result<
        (),
        FSError,
    >)
        requires
            old(fs_conn).wf(),
            old(self).wf(),
        ensures
            final(fs_conn).wf(),
            r is Ok,
            *final(self) == *old(self),
            final(fs_conn).fsv() == file_write_tr(
                old(fs_conn).fsv(),
                old(self).directory.path@,
                old(self).name@,
                data@,
                ftype,
            ),
    {
        let ghost v = fs_conn.fsv();
        let ghost d = self.directory.path@;
        let ghost n = self.name@;
        match fs_conn.find_file(self.directory.path.as_str(), self.name.as_str()) {
            Some(i) => {
                proof {
                    lemma_file_index_unique(v, d, n, i as int);
                }
                let row = FileRow {
                    id: fs_conn.files[i].id,
                    name: fs_conn.files[i].name.clone(),
                    kind: ftype,
                    data: data.to_owned(),
                    directory: fs_conn.files[i].directory.clone(),
                };
                proof {
                    let rec = FileRec { data: data@, kind: ftype, ..v.files[i as int] };
                    assert(row@ == rec);
                    lemma_file_update_wf(v, i as int, rec);
                }
                fs_conn.set_file_row(i, row);
                proof {
                    assert(fs_conn.fsv() =~= file_write_tr(v, d, n, data@, ftype));
                }
                Ok(())
            },
            None => {
                proof {
                    assert(fs_conn.fsv() =~= file_write_tr(v, d, n, data@, ftype));
                }
                Ok(())
            },
        }
    }

    /// The file handle of the row with the given storage id; the FUSE
    /// adapter turns inodes back into handles this way.
    pub fn from_id(id: u64, fs_conn: &FSConnection) -> (r: Result<File, FSError>)
        requires
            fs_conn.wf(),
        ensures
            r is Ok <==> has_file_id(fs_conn.fsv().files, id as int),
            r matches Ok(f) ==> {
                let rec = fs_conn.fsv().files[file_id_index(fs_conn.fsv().files, id as int)];
                f.name@ == rec.name && f.directory.path@ == rec.directory && f.wf()
            },
            r matches Err(e) ==> e matches FSError::DoesNotExist(_),
    {
        match fs_conn.find_file_by_id(id) {
            Some(i) => {
                proof {
                    lemma_file_id_index_unique(fs_conn.fsv(), id as int, i as int);
                    let rec = fs_conn.fsv().files[i as int];
                    assert(has_dir(fs_conn.fsv().dirs, rec.directory));
                    let k = choose|k: int|
                        0 <= k < fs_conn.fsv().dirs.len() && fs_conn.fsv().dirs[k].path
                            == rec.directory;
                    assert(is_dir_path(fs_conn.fsv().dirs[k].path));
                }
                Ok(
                    File {
                        name: fs_conn.files[i].name.clone(),
                        directory: Directory { path: fs_conn.files[i].directory.clone() },
                    },
                )
            },
            None => Err(FSError::DoesNotExist("no file row has this id".to_owned())),
        }
    }
}

} // verus!
