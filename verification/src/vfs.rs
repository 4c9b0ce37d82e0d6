//! In-memory model of the filesystem collaborator: a flat table of inodes
//! holding byte contents, and a table of path names, each a hard link to one
//! inode.  Exposes exactly the narrow interface the core consumes: resolve a
//! path, count hard links, create and remove links.

use vstd::prelude::*;

verus! {

/// Most names the model filesystem will hold; keeps link counts inside `u32`.
pub const NAME_LIMIT: usize = 0xFFFF;

/// One path name: a hard link binding a path to an inode.
pub struct FsName {
    /// The absolute path, as bytes.
    pub path: Vec<u8>,
    /// The inode the path resolves to.
    pub inode: usize,
}

/// The model filesystem: named links and inode contents.
pub struct Fs {
    /// All current links; paths are pairwise distinct.
    pub names: Vec<FsName>,
    /// Contents of each inode; inode numbers are indexes and are never reused.
    pub inodes: Vec<Vec<u8>>,
}

/// Index of the first link with the given path, starting the scan at `i`;
/// -1 when there is none.
pub open spec fn find_name_at(names: Seq<FsName>, path: Seq<u8>, i: int) -> int
    decreases names.len() - i when 0 <= i <= names.len()
{
    if i >= names.len() {
        -1
    } else if names[i].path@ == path {
        i
    } else {
        find_name_at(names, path, i + 1)
    }
}

/// Index of the link with the given path, or -1 when the path is absent.
pub open spec fn name_lookup(fs: Fs, path: Seq<u8>) -> int {
    find_name_at(fs.names@, path, 0)
}

/// Number of links to `ino` among `names[i..]`.
pub open spec fn count_links_at(names: Seq<FsName>, ino: int, i: int) -> int
    decreases names.len() - i when 0 <= i <= names.len()
{
    if i >= names.len() {
        0
    } else {
        (if names[i].inode == ino { 1int } else { 0int }) + count_links_at(names, ino, i + 1)
    }
}

/// Hard-link count of an inode: the number of paths bound to it.
pub open spec fn nlink_of(fs: Fs, ino: int) -> int {
    count_links_at(fs.names@, ino, 0)
}

/// Well-formedness: every link points at an existing inode, paths are
/// pairwise distinct, and the name table is within its limit.
pub open spec fn fs_wf(fs: Fs) -> bool {
    &&& forall|i: int| 0 <= i < fs.names@.len() ==> (#[trigger] fs.names@[i]).inode < fs.inodes@.len()
    &&& forall|i: int, j: int|
        #![trigger fs.names@[i].path, fs.names@[j].path]
        0 <= i < j < fs.names@.len() ==> fs.names@[i].path@ != fs.names@[j].path@
    &&& fs.names@.len() <= NAME_LIMIT
}

/// What `find_name_at` returns: a real first match, or -1 with no match at all.
pub proof fn lemma_find_props(names: Seq<FsName>, path: Seq<u8>, i: int)
    requires
        0 <= i <= names.len(),
    ensures
        find_name_at(names, path, i) == -1
            ==> forall|j: int| i <= j < names.len() ==> (#[trigger] names[j]).path@ != path,
        find_name_at(names, path, i) != -1 ==> {
            let r = find_name_at(names, path, i);
            &&& i <= r < names.len()
            &&& names[r].path@ == path
            &&& forall|j: int| i <= j < r ==> (#[trigger] names[j]).path@ != path
        },
    decreases names.len() - i,
{
    if i < names.len() && names[i].path@ != path {
        lemma_find_props(names, path, i + 1);
    }
}

/// Skipping known non-matches does not change the result of the scan.
pub proof fn lemma_find_skip(names: Seq<FsName>, path: Seq<u8>, i: int)
    requires
        0 <= i <= names.len(),
        forall|j: int| 0 <= j < i ==> (#[trigger] names[j]).path@ != path,
    ensures
        find_name_at(names, path, 0) == find_name_at(names, path, i),
    decreases i,
{
    if i > 0 {
        lemma_find_skip(names, path, i - 1);
        assert(find_name_at(names, path, i - 1) == find_name_at(names, path, i));
    }
}

/// A link count is between 0 and the number of names scanned.
pub proof fn lemma_count_bounds(names: Seq<FsName>, ino: int, i: int)
    requires
        0 <= i <= names.len(),
    ensures
        0 <= count_links_at(names, ino, i) <= names.len() - i,
    decreases names.len() - i,
{
    if i < names.len() {
        lemma_count_bounds(names, ino, i + 1);
    }
}

/// Appending one link adds one to its inode's count and nothing to others.
pub proof fn lemma_count_push(names: Seq<FsName>, n: FsName, ino: int, i: int)
    requires
        0 <= i <= names.len(),
    ensures
        count_links_at(names.push(n), ino, i)
            == count_links_at(names, ino, i) + (if n.inode == ino { 1int } else { 0int }),
    decreases names.len() - i,
{
    if i < names.len() {
        lemma_count_push(names, n, ino, i + 1);
        assert(names.push(n)[i] == names[i]);
    } else {
        assert(names.push(n)[i] == n);
        assert(count_links_at(names.push(n), ino, i + 1) == 0);
    }
}

/// Removing one link takes one from its inode's count and nothing from others.
pub proof fn lemma_count_remove(names: Seq<FsName>, idx: int, ino: int)
    requires
        0 <= idx < names.len(),
    ensures
        count_links_at(names.remove(idx), ino, 0)
            == count_links_at(names, ino, 0) - (if names[idx].inode == ino { 1int } else { 0int }),
    decreases idx,
{
    if idx == 0 {
        assert(names.remove(0) =~= names.subrange(1, names.len() as int));
        lemma_count_shift(names, ino);
    } else {
        let tail_removed = names.subrange(1, names.len() as int).remove(idx - 1);
        assert(names.remove(idx).subrange(1, names.remove(idx).len() as int) =~= tail_removed);
        assert(names.remove(idx)[0] == names[0]);
        lemma_count_shift(names, ino);
        lemma_count_shift(names.remove(idx), ino);
        lemma_count_remove(names.subrange(1, names.len() as int), idx - 1, ino);
    }
}

/// Scanning from position 1 equals scanning the tail from position 0.
pub proof fn lemma_count_shift(names: Seq<FsName>, ino: int)
    requires
        names.len() > 0,
    ensures
        count_links_at(names, ino, 1) == count_links_at(names.subrange(1, names.len() as int), ino, 0),
{
    lemma_count_shift_at(names, ino, 1);
}

/// Scanning `names` from `i` equals scanning the tail from `i - 1`.
pub proof fn lemma_count_shift_at(names: Seq<FsName>, ino: int, i: int)
    requires
        names.len() > 0,
        1 <= i <= names.len(),
    ensures
        count_links_at(names, ino, i)
            == count_links_at(names.subrange(1, names.len() as int), ino, i - 1),
    decreases names.len() - i,
{
    if i < names.len() {
        lemma_count_shift_at(names, ino, i + 1);
        assert(names.subrange(1, names.len() as int)[i - 1] == names[i]);
    }
}

/// An inode no link points at has count zero.
pub proof fn lemma_count_zero(names: Seq<FsName>, ino: int, i: int)
    requires
        0 <= i <= names.len(),
        forall|j: int| 0 <= j < names.len() ==> (#[trigger] names[j]).inode != ino,
    ensures
        count_links_at(names, ino, i) == 0,
    decreases names.len() - i,
{
    if i < names.len() {
        lemma_count_zero(names, ino, i + 1);
    }
}

/// Byte-for-byte equality of two byte vectors.
pub fn bytes_eq(a: &Vec<u8>, b: &Vec<u8>) -> (r: bool)
    ensures
        r <==> a@ == b@,
{
    if a.len() != b.len() {
        return false;
    }
    let n = a.len();
    let mut i: usize = 0;
    while i < n
        invariant
            n == a@.len() && n == b@.len(),
            i <= n,
            forall|j: int| 0 <= j < i ==> a@[j] == b@[j],
        decreases n - i,
    {
        if a[i] != b[i] {
            return false;
        }
        i += 1;
    }
    proof {
        assert(a@ =~= b@);
    }
    true
}

/// `orig` with `data` written over it starting at `offset`, extending it
/// when the write runs past the end.
pub open spec fn splice_bytes(orig: Seq<u8>, offset: int, data: Seq<u8>) -> Seq<u8> {
    orig.take(offset) + data + (if orig.len() > offset + data.len() {
        orig.skip(offset + data.len())
    } else {
        Seq::empty()
    })
}

impl Fs {
    /// An empty filesystem: no inodes, no names.
    pub fn new() -> (fs: Fs)
        ensures
            fs_wf(fs),
            fs.names@.len() == 0,
            fs.inodes@.len() == 0,
    {
        Fs { names: Vec::new(), inodes: Vec::new() }
    }

    /// Index of the link with the given path, if any.
    pub fn find_name(&self, path: &Vec<u8>) -> (r: Option<usize>)
        requires
            fs_wf(*self),
        ensures
            match r {
                Some(i) => i == name_lookup(*self, path@) && i < self.names@.len()
                    && self.names@[i as int].path@ == path@,
                None => name_lookup(*self, path@) == -1,
            },
    {
        let n = self.names.len();
        let mut i: usize = 0;
        while i < n
            invariant
                fs_wf(*self),
                n == self.names@.len(),
                i <= n,
                forall|j: int| 0 <= j < i ==> (#[trigger] self.names@[j]).path@ != path@,
            decreases n - i,
        {
            if bytes_eq(&self.names[i].path, path) {
                proof {
                    lemma_find_skip(self.names@, path@, i as int);
                }
                return Some(i);
            }
            i += 1;
        }
        proof {
            lemma_find_skip(self.names@, path@, n as int);
        }
        None
    }

    /// Hard-link count of an inode, as the stat syscall reports it.
    pub fn count_hardlinks(&self, ino: usize) -> (n: u32)
        requires
            fs_wf(*self),
        ensures
            n as int == nlink_of(*self, ino as int),
    {
        let total = self.names.len();
        let mut i: usize = 0;
        let mut n: u32 = 0;
        proof {
            lemma_count_bounds(self.names@, ino as int, 0);
        }
        while i < total
            invariant
                fs_wf(*self),
                total == self.names@.len(),
                i <= total,
                n <= i,
                n as int + count_links_at(self.names@, ino as int, i as int)
                    == nlink_of(*self, ino as int),
            decreases total - i,
        {
            if self.names[i].inode == ino {
                proof {
                    lemma_count_bounds(self.names@, ino as int, i as int);
                }
                n = n + 1;
            }
            i += 1;
        }
        n
    }

    /// Resolves a path for opening.  An existing file is found (and its
    /// contents cleared when `create` or `trunc` is set); a missing path is
    /// created when `create` is set and is otherwise a failure.
    pub fn open_by_path(&mut self, path: &Vec<u8>, create: bool, trunc: bool) -> (r: Option<usize>)
        requires
            fs_wf(*old(self)),
            create ==> old(self).names@.len() < NAME_LIMIT,
        ensures
            fs_wf(*final(self)),
            name_lookup(*old(self), path@) == -1 && !create ==> r is None && *final(self) == *old(self),
            name_lookup(*old(self), path@) == -1 && create ==> {
                let ino = old(self).inodes@.len() as int;
                &&& r == Some(old(self).inodes@.len() as usize)
                &&& final(self).inodes@.len() == ino + 1
                &&& forall|j: int| 0 <= j < ino ==> final(self).inodes@[j] == old(self).inodes@[j]
                &&& final(self).inodes@[ino]@.len() == 0
                &&& final(self).names@.len() == old(self).names@.len() + 1
                &&& forall|j: int| 0 <= j < old(self).names@.len()
                    ==> final(self).names@[j] == old(self).names@[j]
                &&& final(self).names@[old(self).names@.len() as int].path@ == path@
                &&& final(self).names@[old(self).names@.len() as int].inode == old(self).inodes@.len()
                &&& nlink_of(*final(self), ino) == 1
            },
            name_lookup(*old(self), path@) >= 0 ==> {
                let idx = name_lookup(*old(self), path@);
                let ino = old(self).names@[idx].inode as int;
                &&& r == Some(old(self).names@[idx].inode)
                &&& final(self).names@ == old(self).names@
                &&& final(self).inodes@.len() == old(self).inodes@.len()
                &&& ((create || trunc) ==> {
                    &&& forall|j: int| 0 <= j < old(self).inodes@.len() && j != ino
                        ==> final(self).inodes@[j] == old(self).inodes@[j]
                    &&& final(self).inodes@[ino]@.len() == 0
                })
                &&& (!(create || trunc) ==> *final(self) == *old(self))
            },
    {
        proof {
            lemma_find_props(self.names@, path@, 0);
        }
        match self.find_name(path) {
            Some(idx) => {
                let ino = self.names[idx].inode;
                if create || trunc {
                    self.inodes[ino] = Vec::new();
                }
                Some(ino)
            },
            None => {
                if create {
                    let ino = self.inodes.len();
                    self.inodes.push(Vec::new());
                    let mut p: Vec<u8> = Vec::new();
                    let mut i: usize = 0;
                    let plen = path.len();
                    while i < plen
                        invariant
                            i <= plen,
                            plen == path@.len(),
                            p@.len() == i,
                            forall|j: int| 0 <= j < i ==> p@[j] == path@[j],
                        decreases plen - i,
                    {
                        p.push(path[i]);
                        i += 1;
                    }
                    proof {
                        assert(p@ =~= path@);
                    }
                    let entry = FsName { path: p, inode: ino };
                    let ghost entv = entry;
                    let ghost pre_names = self.names@;
                    self.names.push(entry);
                    proof {
                        lemma_count_push(pre_names, entv, ino as int, 0);
                        assert(forall|j: int| 0 <= j < pre_names.len()
                            ==> (#[trigger] pre_names[j]).inode != ino);
                        lemma_count_zero(pre_names, ino as int, 0);
                        assert forall|a: int, b: int|
                            #![trigger self.names@[a].path, self.names@[b].path]
                            0 <= a < b < self.names@.len()
                            implies self.names@[a].path@ != self.names@[b].path@ by {
                            if b == pre_names.len() {
                                lemma_find_props(pre_names, path@, 0);
                                assert(pre_names[a].path@ != path@);
                            }
                        }
                    }
                    Some(ino)
                } else {
                    None
                }
            },
        }
    }

    /// Adds a hard link `newp` to the inode `oldp` resolves to.  Fails when
    /// `oldp` is absent or `newp` already exists.
    pub fn link_path(&mut self, oldp: &Vec<u8>, newp: &Vec<u8>) -> (r: isize)
        requires
            fs_wf(*old(self)),
            old(self).names@.len() < NAME_LIMIT,
        ensures
            fs_wf(*final(self)),
            r == 0 || r == -1,
            (r == 0) <==> (name_lookup(*old(self), oldp@) >= 0 && name_lookup(*old(self), newp@) == -1),
            r == -1 ==> *final(self) == *old(self),
            r == 0 ==> {
                let idx = name_lookup(*old(self), oldp@);
                let ino = old(self).names@[idx].inode as int;
                &&& final(self).inodes@ == old(self).inodes@
                &&& final(self).names@.len() == old(self).names@.len() + 1
                &&& forall|j: int| 0 <= j < old(self).names@.len()
                    ==> final(self).names@[j] == old(self).names@[j]
                &&& final(self).names@[old(self).names@.len() as int].path@ == newp@
                &&& final(self).names@[old(self).names@.len() as int].inode as int == ino
                &&& nlink_of(*final(self), ino) == nlink_of(*old(self), ino) + 1
                &&& forall|other: int| other != ino
                    ==> nlink_of(*final(self), other) == nlink_of(*old(self), other)
            },
    {
        proof {
            lemma_find_props(self.names@, oldp@, 0);
            lemma_find_props(self.names@, newp@, 0);
        }
        let oldidx = match self.find_name(oldp) {
            Some(i) => i,
            None => {
                return -1;
            },
        };
        match self.find_name(newp) {
            Some(_) => {
                return -1;
            },
            None => {},
        }
        let ino = self.names[oldidx].inode;
        let mut p: Vec<u8> = Vec::new();
        let mut i: usize = 0;
        let plen = newp.len();
        while i < plen
            invariant
                i <= plen,
                plen == newp@.len(),
                p@.len() == i,
                forall|j: int| 0 <= j < i ==> p@[j] == newp@[j],
            decreases plen - i,
        {
            p.push(newp[i]);
            i += 1;
        }
        proof {
            assert(p@ =~= newp@);
        }
        let entry = FsName { path: p, inode: ino };
        let ghost entv = entry;
        let ghost pre_names = self.names@;
        self.names.push(entry);
        proof {
            assert forall|other: int| true
                implies count_links_at(self.names@, other, 0)
                    == count_links_at(pre_names, other, 0)
                        + (if ino as int == other { 1int } else { 0int }) by {
                lemma_count_push(pre_names, entv, other, 0);
            }
            assert forall|a: int, b: int|
                #![trigger self.names@[a].path, self.names@[b].path]
                0 <= a < b < self.names@.len()
                implies self.names@[a].path@ != self.names@[b].path@ by {
                if b == pre_names.len() {
                    lemma_find_props(pre_names, newp@, 0);
                    assert(pre_names[a].path@ != newp@);
                }
            }
        }
        0
    }

    /// Removes the hard link with the given path.  Fails when it is absent.
    pub fn unlink_path(&mut self, path: &Vec<u8>) -> (r: isize)
        requires
            fs_wf(*old(self)),
        ensures
            fs_wf(*final(self)),
            r == 0 || r == -1,
            (r == 0) <==> name_lookup(*old(self), path@) >= 0,
            r == -1 ==> *final(self) == *old(self),
            r == 0 ==> {
                let idx = name_lookup(*old(self), path@);
                let ino = old(self).names@[idx].inode as int;
                &&& final(self).inodes@ == old(self).inodes@
                &&& final(self).names@ == old(self).names@.remove(idx)
                &&& nlink_of(*final(self), ino) == nlink_of(*old(self), ino) - 1
                &&& forall|other: int| other != ino
                    ==> nlink_of(*final(self), other) == nlink_of(*old(self), other)
            },
    {
        proof {
            lemma_find_props(self.names@, path@, 0);
        }
        let idx = match self.find_name(path) {
            Some(i) => i,
            None => {
                return -1;
            },
        };
        let ghost pre_names = self.names@;
        let ghost ino = self.names@[idx as int].inode as int;
        self.names.remove(idx);
        proof {
            assert forall|other: int| true
                implies count_links_at(self.names@, other, 0)
                    == count_links_at(pre_names, other, 0)
                        - (if pre_names[idx as int].inode == other { 1int } else { 0int }) by {
                lemma_count_remove(pre_names, idx as int, other);
            }
            assert forall|a: int, b: int|
                #![trigger self.names@[a].path, self.names@[b].path]
                0 <= a < b < self.names@.len()
                implies self.names@[a].path@ != self.names@[b].path@ by {
                let pa = if a < idx { a } else { a + 1 };
                let pb = if b < idx { b } else { b + 1 };
                assert(self.names@[a] == pre_names[pa]);
                assert(self.names@[b] == pre_names[pb]);
            }
        }
        0
    }

    /// Reads from an inode: as many of `len` bytes as the contents hold,
    /// starting at `offset`.
    pub fn read_at(&self, ino: usize, offset: usize, len: usize) -> (r: Vec<u8>)
        requires
            fs_wf(*self),
            ino < self.inodes@.len(),
            offset <= self.inodes@[ino as int]@.len(),
        ensures
            r@.len() == if len as int <= self.inodes@[ino as int]@.len() - offset {
                len as int
            } else {
                self.inodes@[ino as int]@.len() - offset
            },
            r@ == self.inodes@[ino as int]@.subrange(offset as int, offset + r@.len()),
    {
        let avail = self.inodes[ino].len() - offset;
        let n = if len <= avail { len } else { avail };
        let mut out: Vec<u8> = Vec::new();
        let mut i: usize = 0;
        while i < n
            invariant
                fs_wf(*self),
                ino < self.inodes@.len(),
                offset + n <= self.inodes@[ino as int]@.len(),
                offset + n <= usize::MAX,
                i <= n,
                out@.len() == i,
                forall|j: int| 0 <= j < i ==> out@[j] == self.inodes@[ino as int]@[offset + j],
            decreases n - i,
        {
            let b = self.inodes[ino][offset + i];
            out.push(b);
            i += 1;
        }
        proof {
            assert(out@ =~= self.inodes@[ino as int]@.subrange(offset as int, offset + n));
        }
        out
    }

    /// Writes `data` into an inode at `offset`, overwriting and extending
    /// the contents as needed.
    pub fn write_at(&mut self, ino: usize, offset: usize, data: &Vec<u8>) -> (n: usize)
        requires
            fs_wf(*old(self)),
            ino < old(self).inodes@.len(),
            offset <= old(self).inodes@[ino as int]@.len(),
            offset + data@.len() <= usize::MAX,
        ensures
            fs_wf(*final(self)),
            n == data@.len(),
            final(self).names@ == old(self).names@,
            final(self).inodes@.len() == old(self).inodes@.len(),
            forall|j: int| 0 <= j < old(self).inodes@.len() && j != ino
                ==> final(self).inodes@[j] == old(self).inodes@[j],
            final(self).inodes@[ino as int]@
                == splice_bytes(old(self).inodes@[ino as int]@, offset as int, data@),
    {
        let orig_len = self.inodes[ino].len();
        let dlen = data.len();
        let mut nv: Vec<u8> = Vec::new();
        let mut i: usize = 0;
        while i < offset
            invariant
                fs_wf(*self),
                *self == *old(self),
                ino < self.inodes@.len(),
                offset <= self.inodes@[ino as int]@.len(),
                i <= offset,
                nv@.len() == i,
                forall|j: int| 0 <= j < i ==> nv@[j] == self.inodes@[ino as int]@[j],
            decreases offset - i,
        {
            let b = self.inodes[ino][i];
            nv.push(b);
            i += 1;
        }
        let mut k: usize = 0;
        while k < dlen
            invariant
                fs_wf(*self),
                *self == *old(self),
                ino < self.inodes@.len(),
                dlen == data@.len(),
                offset + dlen <= usize::MAX,
                k <= dlen,
                nv@.len() == offset + k,
                forall|j: int| 0 <= j < offset ==> nv@[j] == self.inodes@[ino as int]@[j],
                forall|j: int| 0 <= j < k ==> nv@[offset + j] == data@[j],
            decreases dlen - k,
        {
            nv.push(data[k]);
            k += 1;
        }
        let mut t: usize = offset + dlen;
        while t < orig_len
            invariant
                fs_wf(*self),
                *self == *old(self),
                ino < self.inodes@.len(),
                dlen == data@.len(),
                orig_len == self.inodes@[ino as int]@.len(),
                offset + dlen <= t <= if orig_len > offset + dlen { orig_len as int } else { offset + dlen },
                nv@.len() == t,
                forall|j: int| 0 <= j < offset ==> nv@[j] == self.inodes@[ino as int]@[j],
                forall|j: int| 0 <= j < dlen ==> nv@[offset + j] == data@[j],
                forall|j: int| offset + dlen <= j < t ==> nv@[j] == self.inodes@[ino as int]@[j],
            decreases orig_len - t,
        {
            let b = self.inodes[ino][t];
            nv.push(b);
            t += 1;
        }
        proof {
            assert(nv@ =~= splice_bytes(old(self).inodes@[ino as int]@, offset as int, data@));
        }
        self.inodes[ino] = nv;
        dlen
    }
}

} // verus!
