//! Filesystem view of a decoded archive: inode assignment and the four
//! read-only operations (lookup, attribute query, read, directory listing).
//!
//! Inode 1 is the root directory and maps to no entry. File inodes are
//! assigned sequentially from 2, in the archive's parse order, and never
//! change while the table lives. Attribute values that the archive format
//! does not carry — ownership, permission bits, the timestamp — are supplied
//! by the host at construction.

use vstd::prelude::*;
use vstd::slice::slice_to_vec;

use crate::romdir::Archive;
use crate::romdir::EntryModel;
use crate::romdir::contains_name;
use crate::romdir::entry_named;
use crate::romdir::find_name;
use crate::romdir::lemma_find_name_props;
use crate::romdir::read_bytes;

verus! {

/// Inode number of the root directory.
pub const ROOT_INO: u64 = 1;

/// Error raised by the filesystem operations.
#[derive(Clone, Copy, Debug, PartialEq, Eq, Structural)]
pub enum FsError {
    /// No entry with this name, or no file with this inode.
    NotFound,
    /// An inode known to the inode table has no metadata in the archive.
    /// That would be a construction bug, kept distinct from `NotFound`; the
    /// operations prove they never return it for an adapter built by
    /// `RomdirFS::new`.
    InternalInvariantViolation,
}

/// File or directory, as reported to the filesystem protocol.
#[derive(Clone, Copy, Debug, PartialEq, Eq, Structural)]
pub enum FileKind {
    RegularFile,
    Directory,
}

/// Fixed attribute values served for every inode: ownership, permission
/// bits, and the single timestamp (seconds) used for all time fields.
#[derive(Clone, Copy, Debug, PartialEq, Eq, Structural)]
pub struct FsConfig {
    pub uid: u32,
    pub gid: u32,
    pub file_perm: u16,
    pub dir_perm: u16,
    pub timestamp: u64,
}

/// Attributes of one inode.
#[derive(Clone, Copy, Debug, PartialEq, Eq, Structural)]
pub struct FileAttr {
    pub ino: u64,
    pub size: u64,
    pub kind: FileKind,
    pub perm: u16,
    pub nlink: u32,
    pub uid: u32,
    pub gid: u32,
    pub timestamp: u64,
}

/// One row of a directory listing.
#[derive(Clone, Debug, PartialEq, Eq)]
pub struct DirEntry {
    pub ino: u64,
    pub kind: FileKind,
    pub name: Vec<u8>,
}

/// Mathematical model of one row of a directory listing.
pub ghost struct DirEntryModel {
    pub ino: int,
    pub kind: FileKind,
    pub name: Seq<u8>,
}

/// The model of a listing row.
pub open spec fn dir_entry_model(e: DirEntry) -> DirEntryModel {
    DirEntryModel { ino: e.ino as int, kind: e.kind, name: e.name@ }
}

/// The attributes served for a regular file of `size` bytes at inode `ino`:
/// file kind, the configured file permissions, link count 1, and the
/// configured ownership and timestamp.
pub open spec fn spec_file_attr(cfg: FsConfig, ino: int, size: int) -> FileAttr {
    FileAttr {
        ino: ino as u64,
        size: size as u64,
        kind: FileKind::RegularFile,
        perm: cfg.file_perm,
        nlink: 1,
        uid: cfg.uid,
        gid: cfg.gid,
        timestamp: cfg.timestamp,
    }
}

/// The attributes served for the root directory at inode `ino`: directory
/// kind, size 0, the configured directory permissions, link count 2, and the
/// configured ownership and timestamp.
pub open spec fn spec_dir_attr(cfg: FsConfig, ino: int) -> FileAttr {
    FileAttr {
        ino: ino as u64,
        size: 0,
        kind: FileKind::Directory,
        perm: cfg.dir_perm,
        nlink: 2,
        uid: cfg.uid,
        gid: cfg.gid,
        timestamp: cfg.timestamp,
    }
}

/// Build the protocol attributes of a regular file.
pub fn make_file_attr(cfg: &FsConfig, ino: u64, size: u64) -> (a: FileAttr)
    ensures
        a == spec_file_attr(*cfg, ino as int, size as int),
{
    FileAttr {
        ino,
        size,
        kind: FileKind::RegularFile,
        perm: cfg.file_perm,
        nlink: 1,
        uid: cfg.uid,
        gid: cfg.gid,
        timestamp: cfg.timestamp,
    }
}

/// Build the protocol attributes of the root directory.
pub fn make_dir_attr(cfg: &FsConfig, ino: u64) -> (a: FileAttr)
    ensures
        a == spec_dir_attr(*cfg, ino as int),
{
    FileAttr {
        ino,
        size: 0,
        kind: FileKind::Directory,
        perm: cfg.dir_perm,
        nlink: 2,
        uid: cfg.uid,
        gid: cfg.gid,
        timestamp: cfg.timestamp,
    }
}

/// Index of the first name of `names` equal to `name`, scanning from `k`;
/// `names.len()` if no name matches.
pub open spec fn name_index(names: Seq<Seq<u8>>, name: Seq<u8>, k: int) -> int
    decreases names.len() - k,
{
    if k < 0 || k >= names.len() {
        names.len() as int
    } else if names[k] == name {
        k
    } else {
        name_index(names, name, k + 1)
    }
}

/// Some name of `names` equals `name`.
pub open spec fn has_name(names: Seq<Seq<u8>>, name: Seq<u8>) -> bool {
    name_index(names, name, 0) < names.len()
}

/// Properties of `name_index`: it returns the index of the first matching
/// name at or after `k`, or the sequence's length when there is none.
pub proof fn lemma_name_index_props(names: Seq<Seq<u8>>, name: Seq<u8>, k: int)
    requires
        0 <= k <= names.len(),
    ensures
        k <= name_index(names, name, k) <= names.len(),
        name_index(names, name, k) < names.len() ==> names[name_index(names, name, k)] == name,
        forall|j: int| k <= j < name_index(names, name, k) ==> names[j] != name,
        name_index(names, name, k) == names.len() ==> forall|j: int|
            k <= j < names.len() ==> names[j] != name,
    decreases names.len() - k,
{
    if k < names.len() && names[k] != name {
        lemma_name_index_props(names, name, k + 1);
    }
}

/// When `names` holds exactly the names of the records of `t`, both searches
/// agree on the first match.
proof fn lemma_name_index_matches_find(
    t: Seq<EntryModel>,
    names: Seq<Seq<u8>>,
    name: Seq<u8>,
    k: int,
)
    requires
        names.len() == t.len(),
        forall|i: int| 0 <= i < t.len() ==> names[i] == #[trigger] t[i].name,
        0 <= k <= t.len(),
    ensures
        name_index(names, name, k) == find_name(t, name, k),
    decreases t.len() - k,
{
    if k < t.len() && names[k] != name {
        lemma_name_index_matches_find(t, names, name, k + 1);
    }
}

/// Bidirectional mapping between inode numbers and entry names: index `i`
/// holds the name of inode `i + 2`. Built once, in the archive's parse
/// order, and never mutated.
pub struct InodeTable {
    names: Vec<Vec<u8>>,
}

impl InodeTable {
    /// The names in inode-assignment order.
    pub closed spec fn names_model(self) -> Seq<Seq<u8>> {
        self.names@.map(|i: int, n: Vec<u8>| n@)
    }

    /// The table is small enough that every inode number fits in 64 bits.
    #[verifier::type_invariant]
    spec fn bounded(self) -> bool {
        16 * self.names@.len() <= usize::MAX as int
    }

    /// Build the table from an archive's entry sequence, in that order.
    pub fn new(archive: &Archive) -> (t: InodeTable)
        ensures
            t.names_model().len() == archive.table().len(),
            forall|i: int|
                0 <= i < archive.table().len() ==> t.names_model()[i] == #[trigger] archive.table()[i].name,
    {
        proof {
            use_type_invariant(archive);
        }
        let names = archive.file_names();
        let t = InodeTable { names };
        proof {
            assert forall|i: int| 0 <= i < archive.table().len() implies t.names_model()[i]
                == #[trigger] archive.table()[i].name by {
                assert(t.names_model()[i] == t.names@[i]@);
            }
        }
        t
    }

    /// Number of file inodes.
    pub fn len(&self) -> (n: usize)
        ensures
            n as int == self.names_model().len(),
    {
        self.names.len()
    }

    /// The inode assigned to `name`: 2 plus the name's position, or `None`
    /// when no entry bears that name.
    pub fn resolve(&self, name: &[u8]) -> (r: Option<u64>)
        ensures
            has_name(self.names_model(), name@) ==> r == Some(
                (2 + name_index(self.names_model(), name@, 0)) as u64,
            ),
            !has_name(self.names_model(), name@) ==> r is None,
    {
        proof {
            use_type_invariant(self);
            lemma_name_index_props(self.names_model(), name@, 0);
        }
        let ghost m = self.names_model();
        let mut i: usize = 0;
        while i < self.names.len()
            invariant
                i <= self.names@.len(),
                m == self.names_model(),
                m.len() == self.names@.len(),
                16 * self.names@.len() <= usize::MAX as int,
                name_index(m, name@, 0) == name_index(m, name@, i as int),
            decreases self.names@.len() - i,
        {
            if crate::romdir::bytes_eq(self.names[i].as_slice(), name) {
                assert(m[i as int] == name@);
                return Some(2 + (i as u64));
            }
            assert(m[i as int] != name@);
            i = i + 1;
        }
        None
    }

    /// The name assigned to `ino`, or `None` when `ino` is not a file inode
    /// of this table.
    pub fn name_of(&self, ino: u64) -> (r: Option<Vec<u8>>)
        ensures
            2 <= ino < 2 + self.names_model().len() ==> (r matches Some(n) && n@
                == self.names_model()[ino - 2]),
            !(2 <= ino < 2 + self.names_model().len()) ==> r is None,
    {
        proof {
            use_type_invariant(self);
        }
        if ino < 2 {
            return None;
        }
        let i = ino - 2;
        if i < self.names.len() as u64 {
            Some(slice_to_vec(self.names[i as usize].as_slice()))
        } else {
            None
        }
    }

    /// All `(inode, name)` pairs, in assignment order.
    pub fn pairs(&self) -> (r: Vec<(u64, Vec<u8>)>)
        ensures
            r@.len() == self.names_model().len(),
            forall|i: int|
                0 <= i < r@.len() ==> (#[trigger] r@[i]).0 as int == 2 + i && r@[i].1@
                    == self.names_model()[i],
    {
        proof {
            use_type_invariant(self);
        }
        let mut out: Vec<(u64, Vec<u8>)> = Vec::new();
        let mut i: usize = 0;
        while i < self.names.len()
            invariant
                i <= self.names@.len(),
                16 * self.names@.len() <= usize::MAX as int,
                out@.len() == i,
                forall|j: int|
                    0 <= j < i ==> (#[trigger] out@[j]).0 as int == 2 + j && out@[j].1@
                        == self.names_model()[j],
            decreases self.names@.len() - i,
        {
            out.push((2 + (i as u64), slice_to_vec(self.names[i].as_slice())));
            i = i + 1;
        }
        out
    }
}

/// The filesystem adapter: a decoded archive, the inode table derived from
/// it, and the fixed attribute configuration. Immutable once built; every
/// operation is a pure function of this state.
pub struct RomdirFS {
    archive: Archive,
    inodes: InodeTable,
    config: FsConfig,
}

impl RomdirFS {
    /// The archive's entry table, in parse order; the file at index `i`
    /// holds inode `i + 2`.
    pub closed spec fn table(self) -> Seq<EntryModel> {
        self.archive.table()
    }

    /// The archive's backing blob.
    pub closed spec fn source(self) -> Seq<u8> {
        self.archive.source()
    }

    /// The fixed attribute configuration.
    pub closed spec fn cfg(self) -> FsConfig {
        self.config
    }

    /// The inode table names exactly the archive's entries, in order.
    #[verifier::type_invariant]
    spec fn consistent(self) -> bool {
        &&& self.inodes.names_model().len() == self.archive.table().len()
        &&& forall|i: int|
            0 <= i < self.archive.table().len() ==> self.inodes.names_model()[i]
                == #[trigger] self.archive.table()[i].name
    }

    /// Build the adapter: derive the inode table from the archive's entry
    /// sequence and keep the attribute configuration.
    pub fn new(archive: Archive, config: FsConfig) -> (fs: RomdirFS)
        ensures
            fs.table() == archive.table(),
            fs.source() == archive.source(),
            fs.cfg() == config,
    {
        let inodes = InodeTable::new(&archive);
        RomdirFS { archive, inodes, config }
    }

    /// Look up `name` under the directory inode `parent`. Only the root
    /// directory holds entries: for any other parent, or an unknown name,
    /// the lookup fails with `NotFound`; otherwise it returns the file's
    /// attributes, with the size fetched from the archive's metadata.
    pub fn lookup(&self, parent: u64, name: &[u8]) -> (r: Result<FileAttr, FsError>)
        ensures
            parent == ROOT_INO && contains_name(self.table(), name@) ==> (r matches Ok(a) && a
                == spec_file_attr(
                self.cfg(),
                2 + find_name(self.table(), name@, 0),
                entry_named(self.table(), name@).size,
            )),
            !(parent == ROOT_INO && contains_name(self.table(), name@)) ==> r == Err::<
                FileAttr,
                FsError,
            >(FsError::NotFound),
    {
        if parent != ROOT_INO {
            return Err(FsError::NotFound);
        }
        proof {
            use_type_invariant(self);
            lemma_name_index_matches_find(
                self.table(),
                self.inodes.names_model(),
                name@,
                0,
            );
        }
        match self.inodes.resolve(name) {
            Some(ino) => {
                match self.archive.metadata(name) {
                    Ok(md) => Ok(make_file_attr(&self.config, ino, md.size as u64)),
                    Err(_) => Err(FsError::InternalInvariantViolation),
                }
            },
            None => Err(FsError::NotFound),
        }
    }

    /// Attributes of an inode: directory attributes for the root, file
    /// attributes for every mapped inode, `NotFound` otherwise. Never
    /// returns the internal error.
    pub fn getattr(&self, ino: u64) -> (r: Result<FileAttr, FsError>)
        ensures
            ino == ROOT_INO ==> r == Ok::<FileAttr, FsError>(
                spec_dir_attr(self.cfg(), ROOT_INO as int),
            ),
            2 <= ino < 2 + self.table().len() ==> (r matches Ok(a) && a == spec_file_attr(
                self.cfg(),
                ino as int,
                self.table()[ino - 2].size,
            )),
            !(ino == ROOT_INO || 2 <= ino < 2 + self.table().len()) ==> r == Err::<
                FileAttr,
                FsError,
            >(FsError::NotFound),
    {
        proof {
            use_type_invariant(self);
            use_type_invariant(&self.archive);
        }
        if ino == ROOT_INO {
            return Ok(make_dir_attr(&self.config, ROOT_INO));
        }
        match self.inodes.name_of(ino) {
            Some(name) => {
                proof {
                    self.lemma_inode_entry(ino as int);
                }
                match self.archive.metadata(name.as_slice()) {
                    Ok(md) => Ok(make_file_attr(&self.config, ino, md.size as u64)),
                    Err(_) => Err(FsError::InternalInvariantViolation),
                }
            },
            None => Err(FsError::NotFound),
        }
    }

    /// For a mapped inode, the first entry bearing its name is the entry at
    /// its own index: names are unique in a well-formed archive.
    proof fn lemma_inode_entry(&self, ino: int)
        requires
            self.consistent(),
            self.archive.wf(),
            2 <= ino < 2 + self.table().len(),
        ensures
            contains_name(self.table(), self.table()[ino - 2].name),
            entry_named(self.table(), self.table()[ino - 2].name) == self.table()[ino - 2],
            find_name(self.table(), self.table()[ino - 2].name, 0) == ino - 2,
    {
        let t = self.table();
        let name = t[ino - 2].name;
        lemma_find_name_props(t, name, 0);
        let f = find_name(t, name, 0);
        assert(f <= ino - 2);
        if f < ino - 2 {
            assert(t[f].name == t[ino - 2].name);
            assert(false);
        }
    }

    /// Clamped read of the file at `ino`: the same clamping as the
    /// archive's read — empty once `offset` reaches the file's size, never
    /// a byte outside the file's range. `NotFound` for the root directory
    /// and unmapped inodes; never the internal error.
    pub fn read(&self, ino: u64, offset: u64, length: u32) -> (r: Result<Vec<u8>, FsError>)
        ensures
            2 <= ino < 2 + self.table().len() ==> (r matches Ok(v) && v@ == read_bytes(
                self.source(),
                self.table()[ino - 2],
                offset as int,
                length as int,
            )),
            !(2 <= ino < 2 + self.table().len()) ==> r == Err::<Vec<u8>, FsError>(
                FsError::NotFound,
            ),
    {
        proof {
            use_type_invariant(self);
            use_type_invariant(&self.archive);
        }
        match self.inodes.name_of(ino) {
            Some(name) => {
                proof {
                    self.lemma_inode_entry(ino as int);
                }
                match self.archive.read(name.as_slice(), offset, length) {
                    Ok(v) => Ok(v),
                    Err(_) => Err(FsError::InternalInvariantViolation),
                }
            },
            None => Err(FsError::NotFound),
        }
    }

    /// The model of row `i` of the directory listing: row 0 is `.` and row 1
    /// is `..`, both for the root directory; row `i >= 2` is the file at
    /// inode `i`, which is the entry at index `i - 2`.
    pub open spec fn listing_row(self, i: int) -> DirEntryModel {
        if i == 0 {
            DirEntryModel { ino: ROOT_INO as int, kind: FileKind::Directory, name: seq![46u8] }
        } else if i == 1 {
            DirEntryModel {
                ino: ROOT_INO as int,
                kind: FileKind::Directory,
                name: seq![46u8, 46u8],
            }
        } else {
            DirEntryModel {
                ino: i,
                kind: FileKind::RegularFile,
                name: self.table()[i - 2].name,
            }
        }
    }

    /// Number of rows of the full listing: `.`, `..`, then one per file.
    pub open spec fn listing_len(self) -> int {
        2 + self.table().len() as int
    }

    /// List the root directory from position `cursor` on: the rows of the
    /// listing from index `cursor` to the end, in order. A cursor at or past
    /// the row count yields an empty sequence; equal cursors always yield
    /// equal output. `NotFound` for any other inode.
    pub fn readdir(&self, ino: u64, cursor: u64) -> (r: Result<Vec<DirEntry>, FsError>)
        ensures
            ino == ROOT_INO ==> (r matches Ok(v) && v@.len() == (if cursor as int
                >= self.listing_len() {
                0int
            } else {
                self.listing_len() - cursor
            }) && (forall|k: int|
                0 <= k < v@.len() ==> dir_entry_model(#[trigger] v@[k]) == self.listing_row(
                    cursor + k,
                ))),
            ino != ROOT_INO ==> r == Err::<Vec<DirEntry>, FsError>(FsError::NotFound),
    {
        if ino != ROOT_INO {
            return Err(FsError::NotFound);
        }
        proof {
            use_type_invariant(self);
            use_type_invariant(&self.inodes);
        }
        let n = self.inodes.len();
        let total: u64 = 2 + (n as u64);
        if cursor >= total {
            return Ok(Vec::new());
        }
        let mut out: Vec<DirEntry> = Vec::new();
        let mut i: u64 = cursor;
        while i < total
            invariant
                cursor <= i <= total,
                total == 2 + self.table().len(),
                self.inodes.names_model().len() == self.table().len(),
                forall|j: int|
                    0 <= j < self.table().len() ==> self.inodes.names_model()[j]
                        == #[trigger] self.table()[j].name,
                16 * self.inodes.names@.len() <= usize::MAX as int,
                self.inodes.names_model().len() == self.inodes.names@.len(),
                out@.len() == i - cursor,
                forall|k: int|
                    0 <= k < out@.len() ==> dir_entry_model(#[trigger] out@[k])
                        == self.listing_row(cursor + k),
            decreases total - i,
        {
            if i == 0 {
                let mut dot: Vec<u8> = Vec::new();
                dot.push(46u8);
                let row = DirEntry { ino: ROOT_INO, kind: FileKind::Directory, name: dot };
                proof {
                    assert(dir_entry_model(row).name =~= seq![46u8]);
                }
                out.push(row);
            } else if i == 1 {
                let mut dotdot: Vec<u8> = Vec::new();
                dotdot.push(46u8);
                dotdot.push(46u8);
                let row = DirEntry { ino: ROOT_INO, kind: FileKind::Directory, name: dotdot };
                proof {
                    assert(dir_entry_model(row).name =~= seq![46u8, 46u8]);
                }
                out.push(row);
            } else {
                let idx = (i - 2) as usize;
                let name = slice_to_vec(self.inodes.names[idx].as_slice());
                out.push(DirEntry { ino: i, kind: FileKind::RegularFile, name });
            }
            i = i + 1;
        }
        Ok(out)
    }
}

/// Law: the directory listing is restartable and repeatable. Any two results
/// that meet `readdir`'s contract for the same cursor describe the same
/// rows, and a cursor at the row count describes no rows at all.
pub proof fn lemma_readdir_restartable(
    fs: RomdirFS,
    cursor: int,
    v1: Seq<DirEntry>,
    v2: Seq<DirEntry>,
)
    requires
        v1.len() == if cursor >= fs.listing_len() {
            0int
        } else {
            fs.listing_len() - cursor
        },
        forall|k: int|
            0 <= k < v1.len() ==> dir_entry_model(#[trigger] v1[k]) == fs.listing_row(cursor + k),
        v2.len() == if cursor >= fs.listing_len() {
            0int
        } else {
            fs.listing_len() - cursor
        },
        forall|k: int|
            0 <= k < v2.len() ==> dir_entry_model(#[trigger] v2[k]) == fs.listing_row(cursor + k),
    ensures
        v1.len() == v2.len(),
        forall|k: int|
            0 <= k < v1.len() ==> dir_entry_model(#[trigger] v1[k]) == dir_entry_model(v2[k]),
        cursor == fs.listing_len() ==> v1.len() == 0,
{
}

} // verus!
