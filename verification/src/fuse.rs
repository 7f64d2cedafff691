//! The FUSE adapter's decisions: inode numbering over the split
//! 64-bit space, attribute synthesis, the per-open handle cache that
//! holds materialized producer output, and the logic behind each
//! upcall. The shell that talks to the kernel converts these plain
//! values into its reply types and performs the host I/O asked for.

use std::collections::HashMap;
use vstd::prelude::*;
use vstd::string::*;
use vstd::set_lib::lemma_len_subset;

use crate::vfs::{
    FSConnection, File, Directory, FileType, FileRec, DirRec, has_file, has_dir, file_at,
    has_file_id, file_id_index, has_dir_id, dir_id_index, files_in, dirs_under, file_views,
    dir_views, kind_str,
};
use crate::path::is_file_name;

verus! {

broadcast use vstd::std_specs::hash::group_hash_axioms;

/// The inode space splits in half: inodes below address directories
/// by their storage id, inodes at or above address files by
/// `id + INODE_SPLIT`.
pub const INODE_SPLIT: u64 = u64::MAX / 2;

/// Whether an inode addresses a file.
pub open spec fn is_file_ino(ino: u64) -> bool {
    ino >= INODE_SPLIT
}

/// The inode of the file row with the given storage id.
pub fn file_id_to_ino(id: i64) -> (r: u64)
    requires
        0 <= id,
    ensures
        r == id + INODE_SPLIT,
        is_file_ino(r),
{
    (id as u64) + INODE_SPLIT
}

/// The end of the byte window a read returns: `offset + size`,
/// clamped to the buffer's length.
pub fn calc_size(size: usize, offset: usize, data: &Vec<u8>) -> (r: usize)
    ensures
        r == if offset + size > data@.len() {
            data@.len() as int
        } else {
            offset + size
        },
{
    if offset >= data.len() {
        data.len()
    } else if size > data.len() - offset {
        data.len()
    } else {
        offset + size
    }
}

/// The bytes a read of `size` at `offset` returns: the slice up to
/// the clamped end, and nothing at all past the buffer.
pub open spec fn read_window(data: Seq<u8>, offset: int, size: int) -> Seq<u8> {
    if offset > data.len() {
        Seq::empty()
    } else if offset + size > data.len() {
        data.subrange(offset, data.len() as int)
    } else {
        data.subrange(offset, offset + size)
    }
}

/// Copies the byte window of a read out of the cached buffer.
pub fn read_slice(data: &Vec<u8>, offset: usize, size: usize) -> (r: Vec<u8>)
    ensures
        r@ == read_window(data@, offset as int, size as int),
{
    if offset > data.len() {
        let empty: Vec<u8> = Vec::new();
        return empty;
    }
    let end = calc_size(size, offset, data);
    let mut out: Vec<u8> = Vec::new();
    let mut k: usize = offset;
    while k < end
        invariant
            offset <= k <= end <= data@.len(),
            out@ == data@.subrange(offset as int, k as int),
        decreases end - k,
    {
        out.push(data[k]);
        proof {
            assert(out@ =~= data@.subrange(offset as int, k + 1));
        }
        k += 1;
    }
    proof {
        assert(out@ =~= read_window(data@, offset as int, size as int));
    }
    out
}

/// The plain attribute values the adapter synthesizes; the shell adds
/// the epoch timestamps and converts to its reply type.
#[derive(Clone, Copy, Debug, PartialEq, Eq, Structural)]
pub struct FileAttrData {
    pub ino: u64,
    pub size: u64,
    pub blocks: u64,
    pub perm: u16,
    pub nlink: u32,
    pub uid: u32,
    pub gid: u32,
    pub rdev: u32,
    pub blksize: u32,
    pub is_dir: bool,
}

/// An attribute answer: either synthesized in place, or an order to
/// stat the named host file and mirror what it says.
#[derive(Debug)]
pub enum AttrQuery {
    Ready(FileAttrData),
    StatHost(u64, String),
}

/// The attributes of a directory inode.
pub open spec fn dir_attr_spec(ino: int, uid: u32, gid: u32) -> FileAttrData {
    FileAttrData {
        ino: ino as u64,
        size: 0,
        blocks: 0,
        perm: 0o755,
        nlink: 2,
        uid,
        gid,
        rdev: 0,
        blksize: 512,
        is_dir: true,
    }
}

/// What an attribute answer must say for a file row: a `file` kind
/// defers to the host path, a `text` kind is its body's byte length,
/// an `exec` kind carries the placeholder size.
pub open spec fn attr_matches(
    a: AttrQuery,
    ino: int,
    placeholder: int,
    kind: FileType,
    data: Seq<char>,
    uid: u32,
    gid: u32,
) -> bool {
    match kind {
        FileType::File => a matches AttrQuery::StatHost(i, p) && i == ino && p@ == data,
        FileType::Text => a matches AttrQuery::Ready(f) && f.ino == ino && f.size == (
        vstd::utf8::encode_utf8(data).len() as usize) as u64 && f.perm == 0o644 && f.nlink == 1
            && f.uid == uid && f.gid == gid && !f.is_dir,
        FileType::Exec => a matches AttrQuery::Ready(f) && f.ino == ino && f.size == placeholder
            && f.perm == 0o644 && f.nlink == 1 && f.uid == uid && f.gid == gid && !f.is_dir,
    }
}

/// Synthesizes the attributes of a directory inode: mode `0755`, two
/// links, size zero, the caller's ids.
pub fn create_dir_attr(ino: u64, uid: u32, gid: u32) -> (r: FileAttrData)
    ensures
        r == dir_attr_spec(ino as int, uid, gid),
        r.is_dir,
{
    FileAttrData {
        ino,
        size: 0,
        blocks: 0,
        perm: 0o755,
        nlink: 2,
        uid,
        gid,
        rdev: 0,
        blksize: 512,
        is_dir: true,
    }
}

/// Synthesizes the attributes of a file inode from its row: `text` is
/// sized by its body, `exec` by the placeholder, and `file` defers to
/// a stat of the host path.
pub fn create_file_attr(ino: u64, size: u64, kind: FileType, data: &str, uid: u32, gid: u32)
    -> (r: AttrQuery)
    ensures
        attr_matches(r, ino as int, size as int, kind, data@, uid, gid),
{
    match kind {
        FileType::File => AttrQuery::StatHost(ino, data.to_owned()),
        FileType::Text => AttrQuery::Ready(
            FileAttrData {
                ino,
                size: data.len() as u64,
                blocks: 1,
                perm: 0o644,
                nlink: 1,
                uid,
                gid,
                rdev: 0,
                blksize: 512,
                is_dir: false,
            },
        ),
        FileType::Exec => AttrQuery::Ready(
            FileAttrData {
                ino,
                size,
                blocks: 1,
                perm: 0o644,
                nlink: 1,
                uid,
                gid,
                rdev: 0,
                blksize: 512,
                is_dir: false,
            },
        ),
    }
}

/// Relies on rand::random: a fresh pseudorandom handle; nothing is
/// promised of the value.
#[verifier::external_body]
fn random_u64() -> u64 {
    rand::random::<u64>()
}

/// The set of values below `n` has exactly `n` elements.
proof fn lemma_u64_below_card(n: u64)
    ensures
        Set::new(|x: u64| x < n).finite(),
        Set::new(|x: u64| x < n).len() == n,
    decreases n,
{
    if n == 0 {
        assert(Set::new(|x: u64| x < n) =~= Set::<u64>::empty());
    } else {
        lemma_u64_below_card((n - 1) as u64);
        let prev = Set::new(|x: u64| x < (n - 1) as u64);
        let cur = Set::new(|x: u64| x < n);
        assert(cur =~= prev.insert((n - 1) as u64));
        assert(!prev.contains((n - 1) as u64));
    }
}

/// The per-mount handle cache: each open file handle maps to the
/// bytes materialized for it.
pub struct Store {
    store: HashMap<u64, Vec<u8>>,
}

impl Store {
    /// The cache as a map from handle to bytes.
    pub closed spec fn contents(&self) -> Map<u64, Vec<u8>> {
        self.store@
    }

    /// An empty cache.
    pub fn new() -> (s: Store)
        ensures
            s.contents() == Map::<u64, Vec<u8>>::empty(),
    {
        Store { store: HashMap::new() }
    }

    /// A handle not yet in use: freshly drawn at random, redrawn on a
    /// collision, with a deterministic sweep as the last resort.
    fn fresh_handle(&self) -> (fh: u64)
        requires
            self.contents().dom().len() < u64::MAX,
        ensures
            !self.contents().dom().contains(fh),
    {
        let fh = random_u64();
        if !self.store.contains_key(&fh) {
            return fh;
        }
        let mut tries: usize = 0;
        let mut fh2 = random_u64();
        while self.store.contains_key(&fh2) && tries < 64
            invariant
                tries <= 64,
            decreases 64 - tries,
        {
            fh2 = random_u64();
            tries += 1;
        }
        if !self.store.contains_key(&fh2) {
            return fh2;
        }
        let n = self.store.len();
        let mut k: u64 = 0;
        while k <= n as u64
            invariant
                n == self.contents().dom().len(),
                n as u64 <= u64::MAX - 1,
                k <= n as u64 + 1,
                forall|x: u64| x < k ==> self.contents().dom().contains(x),
            decreases n as u64 + 1 - k,
        {
            if !self.store.contains_key(&k) {
                return k;
            }
            k += 1;
        }
        proof {
            let below = Set::new(|x: u64| x < n as u64 + 1);
            lemma_u64_below_card((n + 1) as u64);
            assert forall|x: u64| below.contains(x) implies self.contents().dom().contains(
                x,
            ) by {}
            assert(below.subset_of(self.contents().dom()));
            lemma_len_subset(below, self.contents().dom());
            assert(false);
        }
        0
    }

    /// Caches materialized bytes under a fresh handle and hands the
    /// handle out.
    pub fn insert(&mut self, data: Vec<u8>) -> (fh: u64)
        requires
            old(self).contents().dom().len() < u64::MAX,
        ensures
            !old(self).contents().contains_key(fh),
            final(self).contents() == old(self).contents().insert(fh, data),
    {
        let fh = self.fresh_handle();
        self.store.insert(fh, data);
        fh
    }

    /// The bytes cached under a handle.
    pub fn get(&self, fh: &u64) -> (r: Option<&Vec<u8>>)
        ensures
            r matches Some(b) ==> self.contents().contains_key(*fh) && b == self.contents()[*fh],
            r is None ==> !self.contents().contains_key(*fh),
    {
        if let Some(data) = self.store.get(fh) {
            return Some(data);
        }
        return None;
    }

    /// Whether a handle is cached.
    pub fn contains(&self, fh: &u64) -> (r: bool)
        ensures
            r == self.contents().contains_key(*fh),
    {
        self.store.contains_key(fh)
    }

    /// Drops a handle's cached bytes.
    pub fn remove(&mut self, fh: &u64)
        ensures
            final(self).contents() == old(self).contents().remove(*fh),
    {
        self.store.remove(fh);
    }
}

/// Distinct kinds have distinct kind strings.
proof fn lemma_kind_str_injective(a: FileType, b: FileType)
    ensures
        kind_str(a) == kind_str(b) ==> a == b,
{
    if a != b && kind_str(a) == kind_str(b) {
        assert(kind_str(FileType::File)[0] == 'f');
        assert(kind_str(FileType::Text)[0] == 't');
        assert(kind_str(FileType::Exec)[0] == 'e');
    }
}

/// The reply to a lookup: the child's attributes, as a file or as a
/// directory, or nothing there.
#[derive(Debug)]
pub enum LookupResult {
    FileEntry(AttrQuery),
    DirEntry(FileAttrData),
    NotFound,
}

/// Resolves one name under a parent inode: a file row under the
/// parent directory wins, else a sub-directory row, else nothing.
pub fn lookup(fs_conn: &FSConnection, parent: u64, name: &str, uid: u32, gid: u32) -> (r:
    LookupResult)
    requires
        fs_conn.wf(),
    ensures
        ({
            let v = fs_conn.fsv();
            &&& is_file_ino(parent) ==> r is NotFound
            &&& !is_file_ino(parent) && !has_dir_id(v.dirs, parent as int) ==> r is NotFound
            &&& (!is_file_ino(parent) && has_dir_id(v.dirs, parent as int)) ==> {
                let dp = v.dirs[dir_id_index(v.dirs, parent as int)].path;
                let cp = crate::path::norm_dir_path(dp + name@);
                if is_file_name(name@) && has_file(v.files, dp, name@) {
                    let rec = file_at(v.files, dp, name@);
                    r matches LookupResult::FileEntry(a) && attr_matches(
                        a,
                        rec.id + INODE_SPLIT,
                        1,
                        rec.kind,
                        rec.data,
                        uid,
                        gid,
                    )
                } else if has_dir(v.dirs, cp) {
                    r matches LookupResult::DirEntry(f) && f == dir_attr_spec(
                        v.dirs[crate::vfs::dir_index(v.dirs, cp)].id,
                        uid,
                        gid,
                    )
                } else {
                    r is NotFound
                }
            }
        }),
{
    if parent >= INODE_SPLIT {
        return LookupResult::NotFound;
    }
    let pdir = match Directory::from_id(parent, fs_conn) {
        Ok(d) => d,
        Err(_) => {
            return LookupResult::NotFound;
        },
    };
    match pdir.file(name) {
        Ok(file) => {
            let present = match file.exists_in(fs_conn) {
                Ok(b) => b,
                Err(_) => false,
            };
            if present {
                let id = match file.get_id(fs_conn) {
                    Ok(id) => id,
                    Err(_) => {
                        return LookupResult::NotFound;
                    },
                };
                let (data, kind_s) = match file.read(fs_conn) {
                    Ok(p) => p,
                    Err(_) => {
                        return LookupResult::NotFound;
                    },
                };
                let kind = match FileType::from_str(kind_s.as_str()) {
                    Ok(k) => k,
                    Err(_) => {
                        return LookupResult::NotFound;
                    },
                };
                proof {
                    let v = fs_conn.fsv();
                    let dp = v.dirs[dir_id_index(v.dirs, parent as int)].path;
                    let rec = file_at(v.files, dp, name@);
                    lemma_kind_str_injective(kind, rec.kind);
                    assert(1 <= rec.id < v.next_file_id);
                }
                LookupResult::FileEntry(
                    create_file_attr(id + INODE_SPLIT, 1, kind, data.as_str(), uid, gid),
                )
            } else {
                lookup_dir_child(fs_conn, &pdir, name, uid, gid)
            }
        },
        Err(_) => lookup_dir_child(fs_conn, &pdir, name, uid, gid),
    }
}

/// Resolves a name under a parent directory as a sub-directory.
fn lookup_dir_child(fs_conn: &FSConnection, pdir: &Directory, name: &str, uid: u32, gid: u32)
    -> (r: LookupResult)
    requires
        fs_conn.wf(),
        pdir.wf(),
    ensures
        ({
            let v = fs_conn.fsv();
            let cp = crate::path::norm_dir_path(pdir.path@ + name@);
            if has_dir(v.dirs, cp) {
                r matches LookupResult::DirEntry(f) && f == dir_attr_spec(
                    v.dirs[crate::vfs::dir_index(v.dirs, cp)].id,
                    uid,
                    gid,
                )
            } else {
                r is NotFound
            }
        }),
{
    let cdir = match pdir.dir(name) {
        Ok(d) => d,
        Err(_) => {
            return LookupResult::NotFound;
        },
    };
    match cdir.get_id(fs_conn) {
        Ok(id) => LookupResult::DirEntry(create_dir_attr(id, uid, gid)),
        Err(_) => LookupResult::NotFound,
    }
}

/// Synthesizes the attributes of an inode: files by their row, with
/// placeholder size 1 for `exec`; directories by the fixed directory
/// attributes.
pub fn getattr(fs_conn: &FSConnection, ino: u64, uid: u32, gid: u32) -> (r: Option<AttrQuery>)
    requires
        fs_conn.wf(),
    ensures
        ({
            let v = fs_conn.fsv();
            &&& is_file_ino(ino) ==> {
                if has_file_id(v.files, ino - INODE_SPLIT) {
                    let rec = v.files[file_id_index(v.files, ino - INODE_SPLIT)];
                    r matches Some(a) && attr_matches(a, ino as int, 1, rec.kind, rec.data, uid,
                        gid)
                } else {
                    r is None
                }
            }
            &&& !is_file_ino(ino) ==> {
                if has_dir_id(v.dirs, ino as int) {
                    r matches Some(a) && a matches AttrQuery::Ready(f) && f == dir_attr_spec(
                        ino as int,
                        uid,
                        gid,
                    )
                } else {
                    r is None
                }
            }
        }),
{
    if ino >= INODE_SPLIT {
        let id = ino - INODE_SPLIT;
        match read_by_ino(fs_conn, ino) {
            Some((data, kind)) => Some(create_file_attr(ino, 1, kind, data.as_str(), uid, gid)),
            None => None,
        }
    } else {
        match Directory::from_id(ino, fs_conn) {
            Ok(_) => Some(AttrQuery::Ready(create_dir_attr(ino, uid, gid))),
            Err(_) => None,
        }
    }
}

/// Whether an inode is extant; the adapter grants any access to an
/// extant inode.
pub fn access(fs_conn: &FSConnection, ino: u64) -> (r: bool)
    requires
        fs_conn.wf(),
    ensures
        is_file_ino(ino) ==> r == has_file_id(fs_conn.fsv().files, ino - INODE_SPLIT),
        !is_file_ino(ino) ==> r == has_dir_id(fs_conn.fsv().dirs, ino as int),
{
    if ino >= INODE_SPLIT {
        match File::from_id(ino - INODE_SPLIT, fs_conn) {
            Ok(_) => true,
            Err(_) => false,
        }
    } else {
        match Directory::from_id(ino, fs_conn) {
            Ok(_) => true,
            Err(_) => false,
        }
    }
}

/// The stored data and kind of a file inode's row; what `open`
/// materializes from and what a cache-missing `read` falls back to.
pub fn read_by_ino(fs_conn: &FSConnection, ino: u64) -> (r: Option<(String, FileType)>)
    requires
        fs_conn.wf(),
    ensures
        ({
            let v = fs_conn.fsv();
            if is_file_ino(ino) && has_file_id(v.files, ino - INODE_SPLIT) {
                let rec = v.files[file_id_index(v.files, ino - INODE_SPLIT)];
                r matches Some(p) && p.0@ == rec.data && p.1 == rec.kind
            } else {
                r is None
            }
        }),
{
    if ino < INODE_SPLIT {
        return None;
    }
    let id = ino - INODE_SPLIT;
    let file = match File::from_id(id, fs_conn) {
        Ok(f) => f,
        Err(_) => {
            return None;
        },
    };
    proof {
        let v = fs_conn.fsv();
        let k = file_id_index(v.files, id as int);
        crate::vfs::lemma_file_index_unique(v, v.files[k].directory, v.files[k].name, k);
    }
    let (data, kind_s) = match file.read(fs_conn) {
        Ok(p) => p,
        Err(_) => {
            return None;
        },
    };
    let kind = match FileType::from_str(kind_s.as_str()) {
        Ok(k) => k,
        Err(_) => {
            return None;
        },
    };
    proof {
        let v = fs_conn.fsv();
        let rec = v.files[file_id_index(v.files, ino - INODE_SPLIT)];
        lemma_kind_str_injective(kind, rec.kind);
    }
    Some((data, kind))
}

/// Releases an open handle: a file inode's cached bytes go away;
/// directory inodes hold no handles.
pub fn release(store: &mut Store, ino: u64, fh: u64)
    ensures
        is_file_ino(ino) ==> final(store).contents() == old(store).contents().remove(fh),
        !is_file_ino(ino) ==> final(store).contents() == old(store).contents(),
{
    if ino >= INODE_SPLIT {
        store.remove(&fh);
    }
}

/// One listing entry: the inode, whether it is a directory, the name
/// shown, and the kernel offset that resumes after it.
#[derive(Debug)]
pub struct ReaddirEntry {
    pub ino: u64,
    pub is_dir: bool,
    pub offset: usize,
    pub name: String,
}

/// The mathematical content of a listing entry.
pub ghost struct EntryRec {
    pub ino: int,
    pub is_dir: bool,
    pub name: Seq<char>,
}

/// Whether `cp` names an immediate child directory of `dp`: it
/// extends it by exactly one component.
pub open spec fn is_immediate_child(dp: Seq<char>, cp: Seq<char>) -> bool {
    &&& dp.is_prefix_of(cp)
    &&& cp.len() > dp.len()
    &&& cp[cp.len() - 1] == '/'
    &&& forall|k: int| dp.len() <= k < cp.len() - 1 ==> cp[k] != '/'
}

/// The immediate children among a run of directory rows.
pub open spec fn imm_filter(rows: Seq<DirRec>, dp: Seq<char>) -> Seq<DirRec> {
    rows.filter(|d: DirRec| is_immediate_child(dp, d.path))
}

/// The immediate child directories of `dp`.
pub open spec fn dirs_immediate(dirs: Seq<DirRec>, dp: Seq<char>) -> Seq<DirRec> {
    imm_filter(dirs_under(dirs, dp), dp)
}

/// The basename of an immediate child: what lies between the parent
/// prefix and the trailing slash.
pub open spec fn child_basename(dp: Seq<char>, cp: Seq<char>) -> Seq<char> {
    cp.subrange(dp.len() as int, cp.len() - 1)
}

/// The conceptual listing of a directory: `.` and `..` first, then
/// its files, then its immediate sub-directories by basename.
pub open spec fn dir_listing(v: crate::vfs::FsView, dp: Seq<char>) -> Seq<EntryRec> {
    seq![
        EntryRec { ino: 1, is_dir: true, name: seq!['.'] },
        EntryRec { ino: 1, is_dir: true, name: seq!['.', '.'] },
    ] + files_in(v.files, dp).map_values(
        |f: FileRec| EntryRec { ino: f.id + INODE_SPLIT, is_dir: false, name: f.name },
    ) + dirs_immediate(v.dirs, dp).map_values(
        |d: DirRec| EntryRec { ino: d.id, is_dir: true, name: child_basename(dp, d.path) },
    )
}

/// The listing a readdir on an inode serves: a known directory's
/// listing, or the two dot entries alone when the inode's row is
/// missing.
pub open spec fn readdir_listing(v: crate::vfs::FsView, ino: u64) -> Seq<EntryRec> {
    if has_dir_id(v.dirs, ino as int) {
        dir_listing(v, v.dirs[dir_id_index(v.dirs, ino as int)].path)
    } else {
        seq![
            EntryRec { ino: 1, is_dir: true, name: seq!['.'] },
            EntryRec { ino: 1, is_dir: true, name: seq!['.', '.'] },
        ]
    }
}

/// Whether the child's path has exactly one component past the
/// parent prefix of length `dplen`.
fn single_component_suffix(cp: &str, dplen: usize) -> (r: bool)
    requires
        dplen < cp@.len(),
    ensures
        r == (cp@[cp@.len() - 1] == '/' && (forall|k: int|
            dplen <= k < cp@.len() - 1 ==> cp@[k] != '/')),
{
    let n = cp.unicode_len();
    if cp.get_char(n - 1) != '/' {
        return false;
    }
    let mut k: usize = dplen;
    while k < n - 1
        invariant
            n == cp@.len(),
            dplen <= k <= n - 1,
            cp@[n - 1] == '/',
            forall|j: int| dplen <= j < k ==> cp@[j] != '/',
        decreases n - 1 - k,
    {
        if cp.get_char(k) == '/' {
            return false;
        }
        k += 1;
    }
    true
}

/// Serves a readdir: the listing's entries from `offset` on, each
/// carrying the kernel offset of the next one. A file inode has no
/// listing.
pub fn readdir_entries(fs_conn: &FSConnection, ino: u64, offset: usize) -> (r: Option<
    Vec<ReaddirEntry>,
>)
    requires
        fs_conn.wf(),
    ensures
        is_file_ino(ino) ==> r is None,
        !is_file_ino(ino) ==> (r matches Some(es) && {
            let listing = readdir_listing(fs_conn.fsv(), ino);
            &&& es@.len() == if offset <= listing.len() {
                listing.len() - offset
            } else {
                0
            }
            &&& forall|k: int|
                0 <= k < es@.len() ==> {
                    let e = #[trigger] es@[k];
                    &&& e.ino == listing[offset + k].ino
                    &&& e.is_dir == listing[offset + k].is_dir
                    &&& e.name@ == listing[offset + k].name
                    &&& e.offset == offset + k + 1
                }
        }),
{
    if ino >= INODE_SPLIT {
        return None;
    }
    let ghost v = fs_conn.fsv();
    let ghost listing = readdir_listing(v, ino);

    let mut names: Vec<(u64, bool, String)> = Vec::new();
    proof {
        reveal_strlit(".");
        reveal_strlit("..");
        assert("."@ =~= seq!['.']);
        assert("..".view() =~= seq!['.', '.']);
    }
    let dot: (u64, bool, String) = (1, true, ".".to_owned());
    let dotdot: (u64, bool, String) = (1, true, "..".to_owned());
    names.push(dot);
    names.push(dotdot);

    match Directory::from_id(ino, fs_conn) {
        Ok(dir) => {
            let ghost dp = dir.path@;
            let files = match dir.files(fs_conn) {
                Ok(rows) => rows,
                Err(_) => Vec::new(),
            };
            let ghost frecs = files_in(v.files, dp);
            proof {
                crate::vfs::lemma_files_in_elements(v.files, dp);
                assert forall|k: int| 0 <= k < frecs.len() implies 1 <= (
                #[trigger] frecs[k]).id < i64::MAX as int by {
                    assert(v.files.contains(frecs[k]));
                    let w = choose|w: int| 0 <= w < v.files.len() && v.files[w] == frecs[k];
                    assert(1 <= v.files[w].id < v.next_file_id);
                }
            }
            let mut i: usize = 0;
            while i < files.len()
                invariant
                    i <= files.len(),
                    file_views(files@) == frecs,
                    files@.len() == frecs.len(),
                    forall|k: int| 0 <= k < frecs.len() ==> 1 <= (#[trigger] frecs[k]).id
                        < i64::MAX as int,
                    names@.len() == 2 + i,
                    names@[0].0 == 1 && names@[0].1 && names@[0].2@ == seq!['.'],
                    names@[1].0 == 1 && names@[1].1 && names@[1].2@ == seq!['.', '.'],
                    forall|k: int|
                        0 <= k < i ==> {
                            let e = #[trigger] names@[2 + k];
                            e.0 == frecs[k].id + INODE_SPLIT && e.1 == false && e.2@
                                == frecs[k].name
                        },
                decreases files.len() - i,
            {
                proof {
                    assert(file_views(files@)[i as int] == files@[i as int]@);
                }
                let ino_f = files[i].id + INODE_SPLIT;
                names.push((ino_f, false, files[i].name.clone()));
                i += 1;
            }

            let subdirs = match dir.dirs(fs_conn) {
                Ok(rows) => rows,
                Err(_) => Vec::new(),
            };
            let ghost under = dirs_under(v.dirs, dp);
            let nf = files.len();
            proof {
                crate::vfs::lemma_dirs_under_elements(v.dirs, dp);
                reveal_with_fuel(Seq::filter, 2);
                assert(under.subrange(0, 0) =~= Seq::<DirRec>::empty());
                assert(imm_filter(under.subrange(0, 0), dp) =~= Seq::<DirRec>::empty());
            }
            let mut j: usize = 0;
            while j < subdirs.len()
                invariant
                    j <= subdirs.len(),
                    dir_views(subdirs@) == under,
                    subdirs@.len() == under.len(),
                    dp == dir.path@,
                    forall|k: int|
                        0 <= k < under.len() ==> (#[trigger] under[k]).path.len() > dp.len()
                            && dp.is_prefix_of(under[k].path),
                    names@.len() == 2 + nf + imm_filter(under.subrange(0, j as int), dp).len(),
                    names@[0].0 == 1 && names@[0].1 && names@[0].2@ == seq!['.'],
                    names@[1].0 == 1 && names@[1].1 && names@[1].2@ == seq!['.', '.'],
                    forall|k: int|
                        0 <= k < nf ==> {
                            let e = #[trigger] names@[2 + k];
                            e.0 == frecs[k].id + INODE_SPLIT && e.1 == false && e.2@
                                == frecs[k].name
                        },
                    nf == frecs.len(),
                    forall|k: int|
                        0 <= k < imm_filter(under.subrange(0, j as int), dp).len() ==> {
                            let e = #[trigger] names@[2 + nf + k];
                            let d = imm_filter(under.subrange(0, j as int), dp)[k];
                            e.0 == d.id && e.1 == true && e.2@ == child_basename(dp, d.path)
                        },
                decreases subdirs.len() - j,
            {
                let ghost pre = under.subrange(0, j as int);
                let ghost cur = under.subrange(0, j + 1);
                proof {
                    reveal_with_fuel(Seq::filter, 2);
                    assert(cur.drop_last() =~= pre);
                    assert(cur.last() == under[j as int]);
                    assert(dir_views(subdirs@)[j as int] == subdirs@[j as int]@);
                }
                let dplen = dir.path.as_str().unicode_len();
                if single_component_suffix(subdirs[j].path.as_str(), dplen) {
                    proof {
                        assert(is_immediate_child(dp, under[j as int].path));
                        assert(imm_filter(cur, dp) =~= imm_filter(pre, dp).push(
                            under[j as int],
                        ));
                    }
                    let cplen = subdirs[j].path.as_str().unicode_len();
                    let base = subdirs[j].path.as_str().substring_char(dplen, cplen - 1)
                        .to_owned();
                    names.push((subdirs[j].id, true, base));
                } else {
                    proof {
                        assert(!is_immediate_child(dp, under[j as int].path));
                        assert(imm_filter(cur, dp) =~= imm_filter(pre, dp));
                    }
                }
                j += 1;
            }
            proof {
                assert(under.subrange(0, under.len() as int) =~= under);
                let imm = dirs_immediate(v.dirs, dp);
                let fmap = frecs.map_values(
                    |f: FileRec| EntryRec { ino: f.id + INODE_SPLIT, is_dir: false,
                        name: f.name },
                );
                let dmap = imm.map_values(
                    |d: DirRec| EntryRec { ino: d.id, is_dir: true, name: child_basename(
                        dp,
                        d.path,
                    ) },
                );
                assert(listing =~= seq![
                    EntryRec { ino: 1, is_dir: true, name: seq!['.'] },
                    EntryRec { ino: 1, is_dir: true, name: seq!['.', '.'] },
                ] + fmap + dmap);
                assert(names@.len() == listing.len());
                let dots = seq![
                    EntryRec { ino: 1, is_dir: true, name: seq!['.'] },
                    EntryRec { ino: 1, is_dir: true, name: seq!['.', '.'] },
                ];
                assert forall|k: int| 0 <= k < names@.len() implies {
                    let e = #[trigger] names@[k];
                    e.0 == listing[k].ino && e.1 == listing[k].is_dir && e.2@ == listing[k].name
                } by {
                    assert(listing == dots + fmap + dmap);
                    if k < 2 {
                        assert(listing[k] == dots[k]);
                    } else if k < 2 + nf {
                        assert(listing[k] == fmap[k - 2]);
                        assert(fmap[k - 2] == EntryRec {
                            ino: frecs[k - 2].id + INODE_SPLIT,
                            is_dir: false,
                            name: frecs[k - 2].name,
                        });
                        assert(names@[2 + (k - 2)].0 == frecs[k - 2].id + INODE_SPLIT
                            && names@[2 + (k - 2)].1 == false && names@[2 + (k - 2)].2@
                            == frecs[k - 2].name);
                    } else {
                        let kk = k - 2 - nf;
                        assert(listing[k] == dmap[kk]);
                        assert(dmap[kk] == EntryRec {
                            ino: imm[kk].id,
                            is_dir: true,
                            name: child_basename(dp, imm[kk].path),
                        });
                        assert(names@[2 + nf + kk].0 == imm[kk].id && names@[2 + nf + kk].1
                            == true && names@[2 + nf + kk].2@ == child_basename(
                            dp,
                            imm[kk].path,
                        ));
                    }
                }
            }
            emit_entries(names, offset, Ghost(listing))
        },
        Err(_) => {
            proof {
                assert(names@[0].0 == 1 && names@[0].1 && names@[0].2@ == seq!['.']);
                assert(names@[1].0 == 1 && names@[1].1 && names@[1].2@ == seq!['.', '.']);
                assert(names@.len() == listing.len());
            }
            emit_entries(names, offset, Ghost(listing))
        },
    }
}

/// Turns the built listing into reply entries from `offset` on,
/// stamping each with the offset that resumes after it.
fn emit_entries(names: Vec<(u64, bool, String)>, offset: usize, listing: Ghost<Seq<EntryRec>>)
    -> (r: Option<Vec<ReaddirEntry>>)
    requires
        names@.len() == listing@.len(),
        forall|k: int|
            0 <= k < names@.len() ==> {
                let e = #[trigger] names@[k];
                e.0 == listing@[k].ino && e.1 == listing@[k].is_dir && e.2@ == listing@[k].name
            },
    ensures
        r matches Some(es) && {
            &&& es@.len() == if offset <= listing@.len() {
                listing@.len() - offset
            } else {
                0
            }
            &&& forall|k: int|
                0 <= k < es@.len() ==> {
                    let e = #[trigger] es@[k];
                    &&& e.ino == listing@[offset + k].ino
                    &&& e.is_dir == listing@[offset + k].is_dir
                    &&& e.name@ == listing@[offset + k].name
                    &&& e.offset == offset + k + 1
                }
        },
{
    let mut out: Vec<ReaddirEntry> = Vec::new();
    if offset > names.len() {
        return Some(out);
    }
    let mut k: usize = offset;
    while k < names.len()
        invariant
            offset <= k <= names@.len(),
            names@.len() == listing@.len(),
            forall|j: int|
                0 <= j < names@.len() ==> {
                    let e = #[trigger] names@[j];
                    e.0 == listing@[j].ino && e.1 == listing@[j].is_dir && e.2@
                        == listing@[j].name
                },
            out@.len() == k - offset,
            forall|j: int|
                0 <= j < out@.len() ==> {
                    let e = #[trigger] out@[j];
                    &&& e.ino == listing@[offset + j].ino
                    &&& e.is_dir == listing@[offset + j].is_dir
                    &&& e.name@ == listing@[offset + j].name
                    &&& e.offset == offset + j + 1
                },
        decreases names.len() - k,
    {
        let entry = ReaddirEntry {
            ino: names[k].0,
            is_dir: names[k].1,
            offset: k + 1,
            name: names[k].2.clone(),
        };
        out.push(entry);
        k += 1;
    }
    Some(out)
}

} // verus!
