//! The root directory of the easy file system and the open files of the
//! kernel.
//!
//! The file system keeps its inodes by number, inode 0 being the root
//! directory, and the root directory as a list of slots, each a name and an
//! inode number; a slot with inode number 0 is empty. A file's link count
//! is the number of slots that name it, and a file with no name left is
//! freed.
use vstd::prelude::*;

verus! {

/// The longest file name, in bytes.
pub const NAME_LENGTH_LIMIT: usize = 27;

/// A slot of the root directory.
pub struct DirEntry {
    /// The name, empty in an empty slot.
    pub name: Vec<u8>,
    /// The inode number; 0 marks an empty slot.
    pub inode_id: u32,
}

/// What the file system keeps of an inode.
pub struct DiskInode {
    /// Whether the inode is a directory.
    pub is_dir: bool,
    /// The number of directory entries that name it.
    pub nlink: u32,
    /// The file's bytes.
    pub data: Vec<u8>,
}

/// The file system: its inodes by number (`None`: free) and the slots of
/// the root directory.
pub struct FileSystem {
    entries: Vec<DirEntry>,
    inodes: Vec<Option<DiskInode>>,
}

/// The number of slots of `slots` that hold inode `id`.
pub open spec fn link_count(slots: Seq<(Seq<u8>, u32)>, id: u32) -> nat
    decreases slots.len(),
{
    if slots.len() == 0 {
        0
    } else {
        link_count(slots.drop_last(), id) + if slots.last().1 == id {
            1nat
        } else {
            0nat
        }
    }
}

/// Appending a slot for `v.1` adds one to its count and leaves the others.
pub proof fn lemma_link_count_push(slots: Seq<(Seq<u8>, u32)>, v: (Seq<u8>, u32), id: u32)
    ensures
        link_count(slots.push(v), id) == link_count(slots, id) + if v.1 == id {
            1nat
        } else {
            0nat
        },
{
    assert(slots.push(v).drop_last() =~= slots);
}

/// Replacing slot `k` moves one count from its old inode to its new one.
pub proof fn lemma_link_count_update(slots: Seq<(Seq<u8>, u32)>, k: int, v: (Seq<u8>, u32), id: u32)
    requires
        0 <= k < slots.len(),
    ensures
        link_count(slots.update(k, v), id) + (if slots[k].1 == id {
            1nat
        } else {
            0nat
        }) == link_count(slots, id) + if v.1 == id {
            1nat
        } else {
            0nat
        },
    decreases slots.len(),
{
    let n = slots.len() - 1;
    if k == n {
        assert(slots.update(k, v).drop_last() =~= slots.drop_last());
    } else {
        assert(slots.update(k, v).drop_last() =~= slots.drop_last().update(k, v));
        lemma_link_count_update(slots.drop_last(), k, v, id);
    }
}

/// A slot that holds `id` makes its count positive.
pub proof fn lemma_link_count_pos(slots: Seq<(Seq<u8>, u32)>, k: int, id: u32)
    requires
        0 <= k < slots.len(),
        slots[k].1 == id,
    ensures
        link_count(slots, id) >= 1,
    decreases slots.len(),
{
    if k < slots.len() - 1 {
        lemma_link_count_pos(slots.drop_last(), k, id);
    }
}

/// A count is positive only where a slot holds `id`.
pub proof fn lemma_link_count_witness(slots: Seq<(Seq<u8>, u32)>, id: u32)
    requires
        link_count(slots, id) >= 1,
    ensures
        exists|k: int| 0 <= k < slots.len() && slots[k].1 == id,
    decreases slots.len(),
{
    if slots.last().1 != id {
        lemma_link_count_witness(slots.drop_last(), id);
        let k = choose|k: int| 0 <= k < slots.drop_last().len() && slots.drop_last()[k].1 == id;
        assert(slots[k].1 == id);
    } else {
        assert(slots[slots.len() - 1].1 == id);
    }
}

/// No two live slots of `slots` have the same name.
pub open spec fn unique_names(slots: Seq<(Seq<u8>, u32)>) -> bool {
    forall|k: int, l: int|
        0 <= k < slots.len() && 0 <= l < slots.len() && k != l && slots[k].1 != 0 && slots[l].1 != 0
            ==> #[trigger] slots[k].0 != #[trigger] slots[l].0
}

/// A name that a link may take: one to 27 bytes, no NUL or `/`, and
/// neither `.` nor `..`.
pub open spec fn valid_name(name: Seq<u8>) -> bool {
    &&& 0 < name.len() <= NAME_LENGTH_LIMIT
    &&& forall|k: int| 0 <= k < name.len() ==> #[trigger] name[k] != 0 && name[k] != 47
    &&& name != seq![46u8]
    &&& name != seq![46u8, 46u8]
}

/// Slot `i` is the first live slot named `name`.
pub open spec fn first_match(slots: Seq<(Seq<u8>, u32)>, i: int, name: Seq<u8>) -> bool {
    &&& 0 <= i < slots.len()
    &&& slots[i].1 != 0
    &&& slots[i].0 == name
    &&& forall|k: int| 0 <= k < i ==> !(#[trigger] slots[k].1 != 0 && slots[k].0 == name)
}

/// Some live slot is named `name`.
pub open spec fn has_name(slots: Seq<(Seq<u8>, u32)>, name: Seq<u8>) -> bool {
    exists|k: int| 0 <= k < slots.len() && #[trigger] slots[k].1 != 0 && slots[k].0 == name
}

/// Slot `i` is the first empty slot, or `i` is the number of slots and no
/// slot is empty.
pub open spec fn first_free_slot(slots: Seq<(Seq<u8>, u32)>, i: int) -> bool {
    &&& 0 <= i <= slots.len()
    &&& i < slots.len() ==> slots[i].1 == 0
    &&& forall|k: int| 0 <= k < i ==> (#[trigger] slots[k]).1 != 0
}

/// `name` is written into the first empty slot of `slots` for inode `id`,
/// or appended when there is none.
pub open spec fn slot_added(slots: Seq<(Seq<u8>, u32)>, after: Seq<(Seq<u8>, u32)>, name: Seq<u8>, id: u32) -> bool {
    exists|i: int|
        #[trigger] first_free_slot(slots, i) && after == if i < slots.len() {
            slots.update(i, (name, id))
        } else {
            slots.push((name, id))
        }
}

/// Two byte strings are equal.
fn bytes_eq(a: &Vec<u8>, b: &Vec<u8>) -> (r: bool)
    ensures
        r == (a@ == b@),
{
    if a.len() != b.len() {
        return false;
    }
    let mut i: usize = 0;
    while i < a.len()
        invariant
            a@.len() == b@.len(),
            i <= a@.len(),
            forall|k: int| 0 <= k < i ==> a@[k] == b@[k],
        decreases a@.len() - i,
    {
        if a[i] != b[i] {
            return false;
        }
        i = i + 1;
    }
    assert(a@ =~= b@);
    true
}

/// A copy of a byte string.
fn copy_bytes(a: &Vec<u8>) -> (r: Vec<u8>)
    ensures
        r@ == a@,
{
    let mut r: Vec<u8> = Vec::new();
    let mut i: usize = 0;
    while i < a.len()
        invariant
            i <= a@.len(),
            r@ == a@.take(i as int),
        decreases a@.len() - i,
    {
        r.push(a[i]);
        i = i + 1;
        assert(r@ =~= a@.take(i as int));
    }
    assert(a@.take(a@.len() as int) =~= a@);
    r
}

/// Whether `name` may name a new link.
fn check_name(name: &Vec<u8>) -> (r: bool)
    ensures
        r == valid_name(name@),
{
    if name.len() == 0 || name.len() > NAME_LENGTH_LIMIT {
        return false;
    }
    let mut i: usize = 0;
    while i < name.len()
        invariant
            i <= name@.len(),
            forall|k: int| 0 <= k < i ==> #[trigger] name@[k] != 0 && name@[k] != 47,
        decreases name@.len() - i,
    {
        if name[i] == 0 || name[i] == 47 {
            return false;
        }
        i = i + 1;
    }
    if name.len() == 1 && name[0] == 46 {
        assert(name@ =~= seq![46u8]);
        return false;
    }
    if name.len() == 2 && name[0] == 46 && name[1] == 46 {
        assert(name@ =~= seq![46u8, 46u8]);
        return false;
    }
    proof {
        if name@ == seq![46u8] {
            assert(name@[0] == 46);
        }
        if name@ == seq![46u8, 46u8] {
            assert(name@[0] == 46 && name@[1] == 46);
        }
    }
    true
}

impl FileSystem {
    /// The slots of the root directory: each a name and an inode number.
    pub closed spec fn slots(&self) -> Seq<(Seq<u8>, u32)> {
        self.entries@.map_values(|e: DirEntry| (e.name@, e.inode_id))
    }

    /// The number of inode numbers in use or free.
    pub closed spec fn inode_count(&self) -> int {
        self.inodes@.len() as int
    }

    /// Inode `id` is in use.
    pub closed spec fn allocated(&self, id: int) -> bool {
        0 <= id < self.inodes@.len() && self.inodes@[id] is Some
    }

    /// Inode `id` is a directory.
    pub closed spec fn is_dir(&self, id: int) -> bool {
        self.inodes@[id].unwrap().is_dir
    }

    /// Whether inode `id` is in use and holds a regular file.
    pub fn is_regular(&self, id: u32) -> (r: bool)
        ensures
            r == (self.allocated(id as int) && !self.is_dir(id as int)),
    {
        if (id as usize) < self.inodes.len() {
            match &self.inodes[id as usize] {
                Some(ino) => !ino.is_dir,
                None => false,
            }
        } else {
            false
        }
    }

    /// The stored link count of inode `id`.
    pub closed spec fn nlink(&self, id: int) -> u32 {
        self.inodes@[id].unwrap().nlink
    }

    /// The bytes of inode `id`.
    pub closed spec fn data(&self, id: int) -> Seq<u8> {
        self.inodes@[id].unwrap().data@
    }

    /// The file system's invariant: inode 0 is the root directory and the
    /// only directory; every live slot names an allocated file by a name of
    /// at most 27 bytes, every empty slot is nameless; and each file's link
    /// count is the number of slots that name it, at least one.
    pub closed spec fn wf(&self) -> bool {
        let slots = self.slots();
        &&& 1 <= self.inodes@.len() <= u32::MAX
        &&& self.allocated(0)
        &&& self.is_dir(0)
        &&& forall|id: int| 0 < id < self.inodes@.len() && #[trigger] self.allocated(id) ==> !self.is_dir(id)
            && self.nlink(id) == link_count(slots, id as u32) && self.nlink(id) >= 1
        &&& forall|k: int|
            0 <= k < slots.len() ==> (#[trigger] slots[k]).0.len() <= NAME_LENGTH_LIMIT && (slots[k].1
                == 0 ==> slots[k].0.len() == 0) && (slots[k].1 != 0 ==> self.allocated(
                slots[k].1 as int,
            ))
        &&& unique_names(slots)
    }

    /// A file system with an empty root directory and no file.
    pub fn new() -> (r: Self)
        ensures
            r.wf(),
            r.slots() == Seq::<(Seq<u8>, u32)>::empty(),
            r.inode_count() == 1,
    {
        let mut inodes: Vec<Option<DiskInode>> = Vec::new();
        inodes.push(Some(DiskInode { is_dir: true, nlink: 0, data: Vec::new() }));
        let r = FileSystem { entries: Vec::new(), inodes };
        assert(r.slots() =~= Seq::<(Seq<u8>, u32)>::empty());
        r
    }

    /// The index of the first live slot named `name`, if any.
    fn find_dirent(&self, name: &Vec<u8>) -> (r: Option<usize>)
        ensures
            r is None <==> !has_name(self.slots(), name@),
            r matches Some(i) ==> first_match(self.slots(), i as int, name@),
    {
        let mut i: usize = 0;
        while i < self.entries.len()
            invariant
                i <= self.entries@.len(),
                forall|k: int| 0 <= k < i ==> !(#[trigger] self.slots()[k].1 != 0 && self.slots()[k].0 == name@),
            decreases self.entries@.len() - i,
        {
            if self.entries[i].inode_id != 0 && bytes_eq(&self.entries[i].name, name) {
                assert(self.slots()[i as int].1 != 0 && self.slots()[i as int].0 == name@);
                return Some(i);
            }
            i = i + 1;
        }
        proof {
            assert forall|k: int| 0 <= k < self.slots().len() implies !(#[trigger] self.slots()[k].1 != 0
                && self.slots()[k].0 == name@) by {}
        }
        None
    }
}

/// The names of the live slots, in slot order.
pub open spec fn live_names(slots: Seq<(Seq<u8>, u32)>) -> Seq<Seq<u8>>
    decreases slots.len(),
{
    if slots.len() == 0 {
        Seq::empty()
    } else if slots.last().1 != 0 {
        live_names(slots.drop_last()).push(slots.last().0)
    } else {
        live_names(slots.drop_last())
    }
}

/// The bytes `data` after writing `buf` at `offset`: first extended with
/// zero bytes to reach `offset + buf.len()` where shorter.
pub open spec fn written(data: Seq<u8>, offset: int, buf: Seq<u8>) -> Seq<u8> {
    let len = if offset + buf.len() <= data.len() {
        data.len() as int
    } else {
        offset + buf.len()
    };
    Seq::new(
        len as nat,
        |j: int|
            if offset <= j < offset + buf.len() {
                buf[j - offset]
            } else if j < data.len() {
                data[j]
            } else {
                0u8
            },
    )
}

/// `fs1` and `fs0` agree on every inode but `id`.
pub open spec fn other_inodes_same(fs0: FileSystem, fs1: FileSystem, id: int) -> bool {
    &&& fs1.inode_count() == fs0.inode_count()
    &&& forall|j: int|
        j != id ==> (#[trigger] fs1.allocated(j) == fs0.allocated(j)) && (fs0.allocated(j) ==> fs1.is_dir(j)
            == fs0.is_dir(j) && fs1.nlink(j) == fs0.nlink(j) && fs1.data(j) == fs0.data(j))
}

/// A handle on an inode of the file system.
#[derive(Copy, Clone, PartialEq, Eq, Structural)]
pub struct Inode {
    /// The inode number.
    pub id: u32,
}

/// What `stat` reports of an inode: its number, its link count and whether
/// it is a directory.
pub open spec fn stat_of(fs: FileSystem, id: int) -> (u32, u32, bool) {
    (id as u32, fs.nlink(id), fs.is_dir(id))
}

impl FileSystem {
    /// A file holds at most `usize::MAX` bytes.
    pub proof fn lemma_data_len(&self, id: int)
        requires
            self.allocated(id),
        ensures
            self.data(id).len() <= usize::MAX,
    {
        assert(self.inodes@[id].unwrap().data.len() == self.data(id).len());
    }

    /// The slot of index `i`, as a pair.
    proof fn lemma_slot(&self, i: int)
        requires
            0 <= i < self.entries@.len(),
        ensures
            self.slots()[i] == (self.entries@[i].name@, self.entries@[i].inode_id),
            self.slots().len() == self.entries@.len(),
    {
    }

    /// Write `name` for inode `id` into the first empty slot, or append it.
    fn append_dirent(&mut self, name: &Vec<u8>, id: u32)
        ensures
            slot_added(old(self).slots(), final(self).slots(), name@, id),
            final(self).inodes == old(self).inodes,
    {
        let mut i: usize = 0;
        let mut found = false;
        while i < self.entries.len() && !found
            invariant
                i <= self.entries@.len(),
                self.entries == old(self).entries,
                self.inodes == old(self).inodes,
                found ==> i < self.entries@.len() && self.slots()[i as int].1 == 0,
                forall|k: int| 0 <= k < i ==> (#[trigger] self.slots()[k]).1 != 0,
            decreases self.entries@.len() - i, if found { 0int } else { 1int },
        {
            if self.entries[i].inode_id == 0 {
                found = true;
            } else {
                i = i + 1;
            }
        }
        let ghost slots0 = self.slots();
        proof {
            assert(first_free_slot(slots0, i as int));
        }
        let entry = DirEntry { name: copy_bytes(name), inode_id: id };
        if found {
            self.entries.set(i, entry);
            proof {
                assert(self.slots() =~= slots0.update(i as int, (name@, id)));
            }
        } else {
            self.entries.push(entry);
            proof {
                assert(self.slots() =~= slots0.push((name@, id)));
            }
        }
    }

    /// Take inode `id` out of the table, leaving it free.
    fn take_inode(&mut self, id: u32) -> (r: DiskInode)
        requires
            old(self).allocated(id as int),
        ensures
            r == old(self).inodes@[id as int].unwrap(),
            final(self).inodes@ == old(self).inodes@.update(id as int, None),
            final(self).entries == old(self).entries,
    {
        let slot = self.inodes.remove(id as usize);
        self.inodes.insert(id as usize, None);
        match slot {
            Some(ino) => ino,
            None => DiskInode { is_dir: false, nlink: 0, data: Vec::new() },
        }
    }
}

impl Inode {
    /// The root directory.
    pub fn root() -> (r: Inode)
        ensures
            r.id == 0,
    {
        Inode { id: 0 }
    }

    /// The inode number, the stored link count, and whether it is a
    /// directory.
    pub fn stat(&self, fs: &FileSystem) -> (r: (u32, u32, bool))
        requires
            fs.wf(),
            fs.allocated(self.id as int),
        ensures
            r == stat_of(*fs, self.id as int),
    {
        match &fs.inodes[self.id as usize] {
            Some(ino) => (self.id, ino.nlink, ino.is_dir),
            None => (self.id, 0, false),
        }
    }

    /// The file that the first live entry named `name` of this directory
    /// refers to; `None` when no entry has that name.
    pub fn find(&self, fs: &FileSystem, name: &Vec<u8>) -> (r: Option<Inode>)
        requires
            fs.wf(),
            fs.allocated(self.id as int),
            fs.is_dir(self.id as int),
        ensures
            r is None <==> !has_name(fs.slots(), name@),
            r matches Some(f) ==> exists|i: int|
                first_match(fs.slots(), i, name@) && f.id == #[trigger] fs.slots()[i].1,
    {
        match fs.find_dirent(name) {
            Some(i) => {
                proof {
                    fs.lemma_slot(i as int);
                }
                Some(Inode { id: fs.entries[i].inode_id })
            },
            None => None,
        }
    }

    /// The names of the live entries of this directory, in entry order.
    pub fn ls(&self, fs: &FileSystem) -> (r: Vec<Vec<u8>>)
        requires
            fs.wf(),
            fs.allocated(self.id as int),
            fs.is_dir(self.id as int),
        ensures
            r@.map_values(|v: Vec<u8>| v@) == live_names(fs.slots()),
    {
        let mut names: Vec<Vec<u8>> = Vec::new();
        let mut i: usize = 0;
        while i < fs.entries.len()
            invariant
                i <= fs.entries@.len(),
                names@.map_values(|v: Vec<u8>| v@) == live_names(fs.slots().take(i as int)),
            decreases fs.entries@.len() - i,
        {
            let ghost before = names@;
            proof {
                fs.lemma_slot(i as int);
                assert(fs.slots().take(i + 1).drop_last() =~= fs.slots().take(i as int));
            }
            if fs.entries[i].inode_id != 0 {
                names.push(copy_bytes(&fs.entries[i].name));
                proof {
                    assert(names@.map_values(|v: Vec<u8>| v@) =~= before.map_values(|v: Vec<u8>| v@).push(
                        fs.entries@[i as int].name@,
                    ));
                }
            }
            i = i + 1;
        }
        proof {
            assert(fs.slots().take(fs.entries@.len() as int) =~= fs.slots());
        }
        names
    }
}

impl Inode {
    /// Add the name `new_name` to this directory for the file that
    /// `old_name` names: the name takes the first empty slot, or a new one,
    /// and the file's link count grows by one. `None`, with nothing
    /// changed, when `new_name` is not a valid name or is taken, this is not
    /// a directory, `old_name` names no file, or the count would overflow.
    #[verifier::spinoff_prover]
    pub fn link(&self, fs: &mut FileSystem, old_name: &Vec<u8>, new_name: &Vec<u8>) -> (r: Option<()>)
        requires
            old(fs).wf(),
            old(fs).allocated(self.id as int),
        ensures
            final(fs).wf(),
            r is Some <==> {
                &&& valid_name(new_name@)
                &&& old(fs).is_dir(self.id as int)
                &&& !has_name(old(fs).slots(), new_name@)
                &&& exists|i: int|
                    #[trigger] first_match(old(fs).slots(), i, old_name@) && old(fs).nlink(
                        old(fs).slots()[i].1 as int,
                    ) < u32::MAX
            },
            r is None ==> *final(fs) == *old(fs),
            r is Some ==> exists|i: int|
                {
                    let id = old(fs).slots()[i].1;
                    &&& #[trigger] first_match(old(fs).slots(), i, old_name@)
                    &&& slot_added(old(fs).slots(), final(fs).slots(), new_name@, id)
                    &&& final(fs).allocated(id as int)
                    &&& final(fs).nlink(id as int) == old(fs).nlink(id as int) + 1
                    &&& final(fs).data(id as int) == old(fs).data(id as int)
                    &&& final(fs).is_dir(id as int) == old(fs).is_dir(id as int)
                    &&& other_inodes_same(*old(fs), *final(fs), id as int)
                },
    {
        if !check_name(new_name) {
            return None;
        }
        let self_is_dir = match &fs.inodes[self.id as usize] {
            Some(ino) => ino.is_dir,
            None => false,
        };
        if !self_is_dir {
            return None;
        }
        if fs.find_dirent(new_name).is_some() {
            return None;
        }
        let i = match fs.find_dirent(old_name) {
            Some(i) => i,
            None => {
                return None;
            },
        };
        proof {
            fs.lemma_slot(i as int);
        }
        let id = fs.entries[i].inode_id;
        let (is_dir, nlink) = match &fs.inodes[id as usize] {
            Some(ino) => (ino.is_dir, ino.nlink),
            None => {
                return None;
            },
        };
        if is_dir || nlink == u32::MAX {
            proof {
                assert forall|j: int| #[trigger] first_match(old(fs).slots(), j, old_name@) implies !(old(
                    fs,
                ).nlink(old(fs).slots()[j].1 as int) < u32::MAX) by {
                    assert(j == i as int);
                }
            }
            return None;
        }
        let ghost fs0 = *fs;
        let ghost slots0 = fs.slots();
        fs.append_dirent(new_name, id);
        let ghost slots1 = fs.slots();
        let mut ino = fs.take_inode(id);
        ino.nlink = nlink + 1;
        fs.inodes.set(id as usize, Some(ino));
        proof {
            assert(fs.slots() == slots1);
            let k = choose|k: int| #[trigger] first_free_slot(slots0, k) && slots1 == if k < slots0.len() {
                slots0.update(k, (new_name@, id))
            } else {
                slots0.push((new_name@, id))
            };
            assert forall|j: int| 0 < j < fs.inodes@.len() && #[trigger] fs.allocated(j) implies !fs.is_dir(j)
                && fs.nlink(j) == link_count(slots1, j as u32) && fs.nlink(j) >= 1 by {
                assert(fs0.allocated(j));
                assert((j as u32) as int == j);
                if k < slots0.len() {
                    lemma_link_count_update(slots0, k, (new_name@, id), j as u32);
                } else {
                    lemma_link_count_push(slots0, (new_name@, id), j as u32);
                }
            }
            assert forall|q: int|
                0 <= q < slots1.len() implies (#[trigger] slots1[q]).0.len() <= NAME_LENGTH_LIMIT && (slots1[q].1
                    == 0 ==> slots1[q].0.len() == 0) && (slots1[q].1 != 0 ==> fs.allocated(
                    slots1[q].1 as int,
                )) by {
                if q != k {
                    assert(slots1[q] == slots0[q]);
                    assert(fs0.allocated(slots0[q].1 as int) ==> fs.allocated(slots0[q].1 as int));
                }
            }
            assert(first_match(slots0, i as int, old_name@));
        }
        Some(())
    }

    /// Remove the first live entry named `name` from this directory: its
    /// slot becomes empty and the file's link count drops by one; the file
    /// is freed, data and all, when no name is left. `None`, with nothing
    /// changed, when this is not a directory or no entry has that name.
    #[verifier::spinoff_prover]
    pub fn unlink(&self, fs: &mut FileSystem, name: &Vec<u8>) -> (r: Option<()>)
        requires
            old(fs).wf(),
            old(fs).allocated(self.id as int),
        ensures
            final(fs).wf(),
            r is Some <==> old(fs).is_dir(self.id as int) && has_name(old(fs).slots(), name@),
            r is None ==> *final(fs) == *old(fs),
            r is Some ==> !has_name(final(fs).slots(), name@),
            r is Some ==> exists|i: int|
                {
                    let id = old(fs).slots()[i].1 as int;
                    &&& #[trigger] first_match(old(fs).slots(), i, name@)
                    &&& final(fs).slots() == old(fs).slots().update(i, (Seq::<u8>::empty(), 0u32))
                    &&& old(fs).nlink(id) == 1 ==> !final(fs).allocated(id)
                    &&& old(fs).nlink(id) > 1 ==> final(fs).allocated(id) && final(fs).nlink(id)
                        == old(fs).nlink(id) - 1 && final(fs).data(id) == old(fs).data(id)
                        && final(fs).is_dir(id) == old(fs).is_dir(id)
                    &&& other_inodes_same(*old(fs), *final(fs), id)
                },
    {
        let self_is_dir = match &fs.inodes[self.id as usize] {
            Some(ino) => ino.is_dir,
            None => false,
        };
        if !self_is_dir {
            return None;
        }
        let i = match fs.find_dirent(name) {
            Some(i) => i,
            None => {
                return None;
            },
        };
        proof {
            fs.lemma_slot(i as int);
        }
        let id = fs.entries[i].inode_id;
        let ghost fs0 = *fs;
        let ghost slots0 = fs.slots();
        proof {
            lemma_link_count_pos(slots0, i as int, id);
        }
        let (is_dir, nlink) = match &fs.inodes[id as usize] {
            Some(ino) => (ino.is_dir, ino.nlink),
            None => {
                return None;
            },
        };
        if is_dir || nlink == 0 {
            return None;
        }
        fs.entries.set(i, DirEntry { name: Vec::new(), inode_id: 0 });
        let ghost slots1 = fs.slots();
        proof {
            assert(slots1 =~= slots0.update(i as int, (Seq::<u8>::empty(), 0u32)));
        }
        let mut ino = fs.take_inode(id);
        ino.nlink = nlink - 1;
        if nlink - 1 > 0 {
            fs.inodes.set(id as usize, Some(ino));
        }
        proof {
            assert(fs.slots() == slots1);
            assert forall|j: int| 0 < j < fs.inodes@.len() && #[trigger] fs.allocated(j) implies !fs.is_dir(j)
                && fs.nlink(j) == link_count(slots1, j as u32) && fs.nlink(j) >= 1 by {
                assert(fs0.allocated(j));
                assert((j as u32) as int == j);
                lemma_link_count_update(slots0, i as int, (Seq::<u8>::empty(), 0u32), j as u32);
            }
            assert forall|q: int|
                0 <= q < slots1.len() implies (#[trigger] slots1[q]).0.len() <= NAME_LENGTH_LIMIT && (slots1[q].1
                    == 0 ==> slots1[q].0.len() == 0) && (slots1[q].1 != 0 ==> fs.allocated(
                    slots1[q].1 as int,
                )) by {
                if q != i {
                    assert(slots1[q] == slots0[q]);
                    if slots0[q].1 == id && nlink == 1 {
                        lemma_link_count_update(slots0, i as int, (Seq::<u8>::empty(), 0u32), id);
                        lemma_link_count_pos(slots1, q, id);
                    }
                }
            }
            assert(first_match(slots0, i as int, name@));
        }
        Some(())
    }
}

/// Inode `id` is the first free inode number above 0, or the number of
/// inodes when none is free.
pub open spec fn first_free_inode(fs: FileSystem, id: int) -> bool {
    &&& 1 <= id <= fs.inode_count()
    &&& id < fs.inode_count() ==> !fs.allocated(id)
    &&& forall|j: int| 1 <= j < id ==> #[trigger] fs.allocated(j)
}

impl FileSystem {
    /// Hand out the first free inode number above 0, as an empty file with
    /// one link, adding a number when none is free.
    fn alloc_inode(&mut self) -> (r: u32)
        requires
            old(self).wf(),
            old(self).inode_count() < u32::MAX,
        ensures
            first_free_inode(*old(self), r as int),
            final(self).entries == old(self).entries,
            final(self).inode_count() == old(self).inode_count() + if r == old(self).inode_count() {
                1int
            } else {
                0int
            },
            final(self).allocated(r as int),
            !final(self).is_dir(r as int),
            final(self).nlink(r as int) == 1,
            final(self).data(r as int) == Seq::<u8>::empty(),
            forall|j: int|
                j != r ==> (#[trigger] final(self).allocated(j) == old(self).allocated(j)) && (old(
                    self,
                ).allocated(j) ==> final(self).inodes@[j] == old(self).inodes@[j]),
    {
        let mut i: usize = 1;
        let mut found = false;
        while i < self.inodes.len() && !found
            invariant
                1 <= i <= self.inodes@.len(),
                self.inodes@.len() <= u32::MAX,
                self.inodes == old(self).inodes,
                self.entries == old(self).entries,
                found ==> i < self.inodes@.len() && !self.allocated(i as int),
                forall|j: int| 1 <= j < i ==> #[trigger] self.allocated(j),
            decreases self.inodes@.len() - i, if found { 0int } else { 1int },
        {
            if self.inodes[i].is_none() {
                found = true;
            } else {
                i = i + 1;
            }
        }
        let ino = DiskInode { is_dir: false, nlink: 1, data: Vec::new() };
        if found {
            self.inodes.set(i, Some(ino));
        } else {
            self.inodes.push(Some(ino));
        }
        i as u32
    }
}

impl Inode {
    /// Create an empty file named `name` in this directory, with one link,
    /// under the first free inode number above 0; the name takes the first
    /// empty slot, or a new one. `None`, with nothing changed, when the name
    /// is taken.
    #[verifier::spinoff_prover]
    pub fn create(&self, fs: &mut FileSystem, name: &Vec<u8>) -> (r: Option<Inode>)
        requires
            old(fs).wf(),
            old(fs).allocated(self.id as int),
            old(fs).is_dir(self.id as int),
            valid_name(name@),
            old(fs).inode_count() < u32::MAX,
        ensures
            final(fs).wf(),
            r is None <==> has_name(old(fs).slots(), name@),
            r is None ==> *final(fs) == *old(fs),
            r is Some ==> first_free_inode(*old(fs), r.unwrap().id as int),
            r is Some ==> slot_added(old(fs).slots(), final(fs).slots(), name@, r.unwrap().id),
            r is Some ==> final(fs).allocated(r.unwrap().id as int),
            r is Some ==> !final(fs).is_dir(r.unwrap().id as int),
            r is Some ==> final(fs).nlink(r.unwrap().id as int) == 1,
            r is Some ==> final(fs).data(r.unwrap().id as int) == Seq::<u8>::empty(),
            r is Some ==> forall|j: int|
                #![trigger final(fs).allocated(j)]
                j != r.unwrap().id ==> final(fs).allocated(j) == old(fs).allocated(j) && (old(
                    fs,
                ).allocated(j) ==> final(fs).is_dir(j) == old(fs).is_dir(j) && final(fs).nlink(j)
                    == old(fs).nlink(j) && final(fs).data(j) == old(fs).data(j)),
    {
        if fs.find_dirent(name).is_some() {
            return None;
        }
        let ghost fs0 = *fs;
        let ghost slots0 = fs.slots();
        let id = fs.alloc_inode();
        let ghost fs_mid = *fs;
        proof {
            assert(fs_mid.allocated(0) == fs0.allocated(0));
            assert(fs_mid.inodes@[0] == fs0.inodes@[0]);
            assert(fs.slots() == slots0);
            if exists|q: int| 0 <= q < slots0.len() && (#[trigger] slots0[q]).1 == id {
                let q = choose|q: int| 0 <= q < slots0.len() && (#[trigger] slots0[q]).1 == id;
                assert(fs0.allocated(id as int));
            }
        }
        fs.append_dirent(name, id);
        proof {
            let slots1 = fs.slots();
            let k = choose|k: int| #[trigger] first_free_slot(slots0, k) && slots1 == if k < slots0.len() {
                slots0.update(k, (name@, id))
            } else {
                slots0.push((name@, id))
            };
            assert(link_count(slots0, id) == 0) by {
                if link_count(slots0, id) >= 1 {
                    lemma_link_count_witness(slots0, id);
                }
            }
            assert forall|j: int| 0 < j < fs.inodes@.len() && #[trigger] fs.allocated(j) implies !fs.is_dir(j)
                && fs.nlink(j) == link_count(slots1, j as u32) && fs.nlink(j) >= 1 by {
                assert((j as u32) as int == j);
                if k < slots0.len() {
                    lemma_link_count_update(slots0, k, (name@, id), j as u32);
                } else {
                    lemma_link_count_push(slots0, (name@, id), j as u32);
                }
                assert(fs.inodes@ == fs_mid.inodes@);
                if j != id {
                    assert(fs_mid.allocated(j) == fs0.allocated(j));
                    assert(fs0.allocated(j));
                    assert(fs_mid.inodes@[j] == fs0.inodes@[j]);
                }
            }
            assert forall|q: int|
                0 <= q < slots1.len() implies (#[trigger] slots1[q]).0.len() <= NAME_LENGTH_LIMIT && (slots1[q].1
                    == 0 ==> slots1[q].0.len() == 0) && (slots1[q].1 != 0 ==> fs.allocated(
                    slots1[q].1 as int,
                )) by {
                if q != k {
                    assert(slots1[q] == slots0[q]);
                    let x = slots0[q].1 as int;
                    if slots0[q].1 != 0 {
                        assert(fs0.allocated(x));
                        assert(x != id);
                        assert(fs_mid.allocated(x) == fs0.allocated(x));
                    }
                }
            }
            assert forall|j: int|
                #![trigger fs.allocated(j)]
                j != id implies fs.allocated(j) == fs0.allocated(j) && (fs0.allocated(j) ==> fs.is_dir(j)
                == fs0.is_dir(j) && fs.nlink(j) == fs0.nlink(j) && fs.data(j) == fs0.data(j)) by {
                assert(fs.inodes@ == fs_mid.inodes@);
                assert(fs_mid.allocated(j) == fs0.allocated(j));
                if fs0.allocated(j) {
                    assert(fs_mid.inodes@[j] == fs0.inodes@[j]);
                }
            }
            assert(fs.inodes@ == fs_mid.inodes@);
            assert(first_free_inode(fs0, id as int));
            assert(slot_added(slots0, fs.slots(), name@, id));
            assert(fs.allocated(id as int) && !fs.is_dir(id as int) && fs.nlink(id as int) == 1);
            assert(fs.data(id as int) == Seq::<u8>::empty());
            assert(fs0 == *old(fs));
            assert(slots0 == old(fs).slots());
        }
        Some(Inode { id })
    }

    /// Copy bytes of the file from `offset` on into the front of `buf`: as
    /// many as `buf` holds and the file has; 0 at or past the end. The
    /// rest of `buf` is kept.
    pub fn read_at(&self, fs: &FileSystem, offset: usize, buf: &mut Vec<u8>) -> (r: usize)
        requires
            fs.wf(),
            fs.allocated(self.id as int),
            !fs.is_dir(self.id as int),
        ensures
            ({
                let data = fs.data(self.id as int);
                &&& offset >= data.len() ==> r == 0 && final(buf)@ == old(buf)@
                &&& offset < data.len() ==> r == vstd::math::min(
                    old(buf)@.len() as int,
                    data.len() - offset,
                ) && final(buf)@.len() == old(buf)@.len() && final(buf)@.take(r as int)
                    == data.subrange(offset as int, offset + r) && final(buf)@.skip(r as int)
                    == old(buf)@.skip(r as int)
            }),
    {
        let data = match &fs.inodes[self.id as usize] {
            Some(ino) => &ino.data,
            None => {
                return 0;
            },
        };
        if offset >= data.len() {
            return 0;
        }
        let avail = data.len() - offset;
        let n = if buf.len() < avail {
            buf.len()
        } else {
            avail
        };
        let mut k: usize = 0;
        while k < n
            invariant
                k <= n,
                n <= buf@.len(),
                n == old(buf)@.len() || n == avail,
                offset + n <= data@.len(),
                data@.len() <= usize::MAX,
                buf@.len() == old(buf)@.len(),
                forall|j: int| 0 <= j < k ==> buf@[j] == data@[offset + j],
                forall|j: int| k <= j < buf@.len() ==> buf@[j] == old(buf)@[j],
            decreases n - k,
        {
            buf.set(k, data[offset + k]);
            k = k + 1;
        }
        proof {
            assert(buf@.take(n as int) =~= data@.subrange(offset as int, offset + n));
            assert(buf@.skip(n as int) =~= old(buf)@.skip(n as int));
        }
        n
    }

    /// Write `buf` into the file at `offset`, extending it with zero bytes
    /// up to `offset` first where it is shorter; the other bytes are kept.
    /// Returns the number of bytes written, all of `buf`.
    #[verifier::spinoff_prover]
    pub fn write_at(&self, fs: &mut FileSystem, offset: usize, buf: &Vec<u8>) -> (r: usize)
        requires
            old(fs).wf(),
            old(fs).allocated(self.id as int),
            !old(fs).is_dir(self.id as int),
            offset + buf@.len() <= usize::MAX,
        ensures
            final(fs).wf(),
            r == buf@.len(),
            final(fs).slots() == old(fs).slots(),
            other_inodes_same(*old(fs), *final(fs), self.id as int),
            final(fs).allocated(self.id as int),
            !final(fs).is_dir(self.id as int),
            final(fs).nlink(self.id as int) == old(fs).nlink(self.id as int),
            buf@.len() == 0 ==> final(fs).data(self.id as int) == old(fs).data(self.id as int),
            buf@.len() > 0 ==> final(fs).data(self.id as int) == written(
                old(fs).data(self.id as int),
                offset as int,
                buf@,
            ),
    {
        if buf.len() == 0 {
            return 0;
        }
        let ghost fs0 = *fs;
        let mut ino = fs.take_inode(self.id);
        let ghost d0 = ino.data@;
        let ghost ino0 = ino;
        let end = offset + buf.len();
        while ino.data.len() < end
            invariant
                ino.nlink == ino0.nlink,
                ino.is_dir == ino0.is_dir,
                ino.data@.len() <= end || ino.data@.len() == d0.len(),
                ino.data@.len() >= d0.len(),
                forall|j: int| 0 <= j < d0.len() ==> ino.data@[j] == d0[j],
                forall|j: int| d0.len() <= j < ino.data@.len() ==> ino.data@[j] == 0,
            decreases end - ino.data@.len(),
        {
            ino.data.push(0);
        }
        let ghost d1 = ino.data@;
        let mut k: usize = 0;
        while k < buf.len()
            invariant
                ino.nlink == ino0.nlink,
                ino.is_dir == ino0.is_dir,
                k <= buf@.len(),
                end == offset + buf@.len(),
                ino.data@.len() == d1.len(),
                d1.len() == if end <= d0.len() { d0.len() as int } else { end as int },
                forall|j: int| 0 <= j < k ==> ino.data@[offset + j] == buf@[j],
                forall|j: int| 0 <= j < d1.len() && !(offset <= j < offset + k) ==> ino.data@[j] == d1[j],
            decreases buf@.len() - k,
        {
            ino.data.set(offset + k, buf[k]);
            k = k + 1;
        }
        proof {
            let w = written(d0, offset as int, buf@);
            assert(ino.data@.len() == w.len());
            assert forall|j: int| 0 <= j < w.len() implies ino.data@[j] == w[j] by {
                if offset <= j < offset + buf@.len() {
                    assert(ino.data@[offset + (j - offset)] == buf@[j - offset]);
                } else {
                    assert(ino.data@[j] == d1[j]);
                }
            }
            assert(ino.data@ =~= w);
        }
        let ghost ino_v = ino;
        fs.inodes.set(self.id as usize, Some(ino));
        proof {
            assert forall|j: int| 0 < j < fs.inodes@.len() && #[trigger] fs.allocated(j) implies !fs.is_dir(j)
                && fs.nlink(j) == link_count(fs.slots(), j as u32) && fs.nlink(j) >= 1 by {
                if j != self.id {
                    assert(fs.inodes@[j] == fs0.inodes@[j]);
                    assert(fs0.allocated(j));
                } else {
                    assert(fs.inodes@[j] == Some(ino_v));
                    assert(fs0.allocated(j));
                    assert(ino_v.nlink == fs0.nlink(j));
                    assert(ino_v.is_dir == fs0.is_dir(j));
                    assert(fs.slots() == fs0.slots());
                }
            }
            assert forall|q: int|
                0 <= q < fs.slots().len() implies (#[trigger] fs.slots()[q]).0.len() <= NAME_LENGTH_LIMIT && (fs.slots()[q].1
                    == 0 ==> fs.slots()[q].0.len() == 0) && (fs.slots()[q].1 != 0 ==> fs.allocated(
                    fs.slots()[q].1 as int,
                )) by {
                assert(fs0.slots()[q] == fs.slots()[q]);
                assert(fs0.allocated(fs.slots()[q].1 as int) ==> fs.allocated(fs.slots()[q].1 as int));
            }
        }
        buf.len()
    }

    /// Truncate the file to no bytes; its number, links and names stay.
    pub fn clear(&self, fs: &mut FileSystem)
        requires
            old(fs).wf(),
            old(fs).allocated(self.id as int),
            !old(fs).is_dir(self.id as int),
        ensures
            final(fs).wf(),
            final(fs).slots() == old(fs).slots(),
            other_inodes_same(*old(fs), *final(fs), self.id as int),
            final(fs).allocated(self.id as int),
            !final(fs).is_dir(self.id as int),
            final(fs).nlink(self.id as int) == old(fs).nlink(self.id as int),
            final(fs).data(self.id as int) == Seq::<u8>::empty(),
    {
        let ghost fs0 = *fs;
        let mut ino = fs.take_inode(self.id);
        ino.data = Vec::new();
        let ghost ino_v = ino;
        fs.inodes.set(self.id as usize, Some(ino));
        proof {
            assert forall|j: int| 0 < j < fs.inodes@.len() && #[trigger] fs.allocated(j) implies !fs.is_dir(j)
                && fs.nlink(j) == link_count(fs.slots(), j as u32) && fs.nlink(j) >= 1 by {
                if j != self.id {
                    assert(fs.inodes@[j] == fs0.inodes@[j]);
                    assert(fs0.allocated(j));
                } else {
                    assert(fs.inodes@[j] == Some(ino_v));
                    assert(fs0.allocated(j));
                    assert(ino_v.nlink == fs0.nlink(j));
                    assert(ino_v.is_dir == fs0.is_dir(j));
                    assert(fs.slots() == fs0.slots());
                }
            }
            assert forall|q: int|
                0 <= q < fs.slots().len() implies (#[trigger] fs.slots()[q]).0.len() <= NAME_LENGTH_LIMIT && (fs.slots()[q].1
                    == 0 ==> fs.slots()[q].0.len() == 0) && (fs.slots()[q].1 != 0 ==> fs.allocated(
                    fs.slots()[q].1 as int,
                )) by {
                assert(fs0.slots()[q] == fs.slots()[q]);
                assert(fs0.allocated(fs.slots()[q].1 as int) ==> fs.allocated(fs.slots()[q].1 as int));
            }
        }
    }
}

/// Flags of the `open` system call.
#[derive(Copy, Clone, PartialEq, Eq, Structural)]
pub struct OpenFlags {
    bits: u32,
}

impl OpenFlags {
    /// Read only: no bit set.
    pub const RDONLY: u32 = 0;
    /// Write only.
    pub const WRONLY: u32 = 1;
    /// Read and write.
    pub const RDWR: u32 = 2;
    /// Create the file if missing.
    pub const CREATE: u32 = 512;
    /// Truncate the file to no bytes.
    pub const TRUNC: u32 = 1024;

    /// The bits of the flags.
    pub closed spec fn value(&self) -> u32 {
        self.bits
    }

    /// The flags with these bits, if every bit is a flag.
    pub fn from_bits(bits: u32) -> (r: Option<Self>)
        ensures
            r is Some <==> bits & !0x603u32 == 0,
            r matches Some(f) ==> f.value() == bits,
    {
        if bits & !0x603u32 == 0 {
            Some(OpenFlags { bits })
        } else {
            None
        }
    }

    /// The bits of the flags.
    pub fn bits(&self) -> (r: u32)
        ensures
            r == self.value(),
    {
        self.bits
    }

    /// Read only: no flag set.
    pub fn read_only() -> (r: Self)
        ensures
            r.value() == 0,
    {
        OpenFlags { bits: Self::RDONLY }
    }

    /// Whether every bit of `bits` is set.
    pub fn contains(&self, bits: u32) -> (r: bool)
        ensures
            r == (self.value() & bits == bits),
    {
        self.bits & bits == bits
    }

    /// Whether no flag is set.
    pub fn is_empty(&self) -> (r: bool)
        ensures
            r == (self.value() == 0),
    {
        self.bits == 0
    }

    /// The access that the flags grant, as (readable, writable): no bit
    /// reads only, `WRONLY` writes only, anything else reads and writes.
    pub fn read_write(&self) -> (r: (bool, bool))
        ensures
            r == access_of(self.value()),
            self.value() & Self::WRONLY != 0 ==> r == (false, true),
            self.value() == 0 ==> r == (true, false),
            self.value() != 0 && self.value() & Self::WRONLY == 0 ==> r == (true, true),
    {
        proof {
            crate::laws::law_open_access(self.value());
        }
        if self.is_empty() {
            (true, false)
        } else if self.contains(Self::WRONLY) {
            (false, true)
        } else {
            (true, true)
        }
    }
}

/// The (readable, writable) access of open flags `bits`.
pub open spec fn access_of(bits: u32) -> (bool, bool) {
    if bits == 0 {
        (true, false)
    } else if bits & OpenFlags::WRONLY == OpenFlags::WRONLY {
        (false, true)
    } else {
        (true, true)
    }
}

/// The kind of an inode as `stat` reports it.
#[derive(Copy, Clone, PartialEq, Eq, Structural)]
pub struct StatMode {
    bits: u32,
}

impl StatMode {
    /// No kind.
    pub const NULL: u32 = 0;
    /// A directory.
    pub const DIR: u32 = 0o040000;
    /// A regular file.
    pub const FILE: u32 = 0o100000;

    /// The bits of the mode.
    pub closed spec fn value(&self) -> u32 {
        self.bits
    }

    /// The mode of a directory or of a regular file.
    pub fn of_kind(is_dir: bool) -> (r: Self)
        ensures
            r.value() == if is_dir {
                StatMode::DIR
            } else {
                StatMode::FILE
            },
    {
        if is_dir {
            StatMode { bits: Self::DIR }
        } else {
            StatMode { bits: Self::FILE }
        }
    }

    /// The bits of the mode.
    pub fn bits(&self) -> (r: u32)
        ensures
            r == self.value(),
    {
        self.bits
    }
}

/// The metadata of an open file.
#[derive(Copy, Clone)]
pub struct Stat {
    /// The device, always 0.
    pub dev: u64,
    /// The inode number.
    pub ino: u64,
    /// The kind of inode.
    pub mode: StatMode,
    /// The number of names of the inode.
    pub nlink: u32,
    /// Padding to the record's 80 bytes, all zero.
    pub pad: [u64; 7],
}

/// A file opened by the kernel: its access rights, its own offset, and the
/// inode.
#[derive(Copy, Clone)]
pub struct OSInode {
    readable: bool,
    writable: bool,
    offset: usize,
    inode: Inode,
}

impl OSInode {
    /// Whether the file was opened for reading.
    pub closed spec fn can_read(&self) -> bool {
        self.readable
    }

    /// Whether the file was opened for writing.
    pub closed spec fn can_write(&self) -> bool {
        self.writable
    }

    /// The offset of the next read or write.
    pub closed spec fn pos(&self) -> usize {
        self.offset
    }

    /// The inode.
    pub closed spec fn node(&self) -> Inode {
        self.inode
    }

    /// Open `inode` with these rights, at offset 0.
    pub fn new(readable: bool, writable: bool, inode: Inode) -> (r: Self)
        ensures
            r.can_read() == readable,
            r.can_write() == writable,
            r.pos() == 0,
            r.node() == inode,
    {
        OSInode { readable, writable, offset: 0, inode }
    }

    /// The inode number of the file.
    pub fn node_id(&self) -> (r: u32)
        ensures
            r == self.node().id,
    {
        self.inode.id
    }

    /// The offset of the next read or write.
    pub fn offset(&self) -> (r: usize)
        ensures
            r == self.pos(),
    {
        self.offset
    }

    /// Whether the file was opened for reading.
    pub fn readable(&self) -> (r: bool)
        ensures
            r == self.can_read(),
    {
        self.readable
    }

    /// Whether the file was opened for writing.
    pub fn writable(&self) -> (r: bool)
        ensures
            r == self.can_write(),
    {
        self.writable
    }

    /// Read from the offset into the front of `buf`, as many bytes as it
    /// holds and the file has, and advance the offset by that many.
    pub fn read(&mut self, fs: &FileSystem, buf: &mut Vec<u8>) -> (r: usize)
        requires
            fs.wf(),
            fs.allocated(old(self).node().id as int),
            !fs.is_dir(old(self).node().id as int),
        ensures
            ({
                let data = fs.data(old(self).node().id as int);
                let off = old(self).pos();
                &&& off >= data.len() ==> r == 0 && final(buf)@ == old(buf)@
                &&& off < data.len() ==> r == vstd::math::min(old(buf)@.len() as int, data.len() - off)
                    && final(buf)@.len() == old(buf)@.len() && final(buf)@.take(r as int)
                    == data.subrange(off as int, off + r) && final(buf)@.skip(r as int) == old(
                    buf,
                )@.skip(r as int)
            }),
            final(self).pos() == old(self).pos() + r,
            final(self).node() == old(self).node(),
            final(self).can_read() == old(self).can_read(),
            final(self).can_write() == old(self).can_write(),
    {
        let n = self.inode.read_at(fs, self.offset, buf);
        proof {
            fs.lemma_data_len(self.inode.id as int);
        }
        self.offset = self.offset + n;
        n
    }

    /// Write `buf` at the offset and advance the offset past it; see
    /// `Inode::write_at`.
    pub fn write(&mut self, fs: &mut FileSystem, buf: &Vec<u8>) -> (r: usize)
        requires
            old(fs).wf(),
            old(fs).allocated(old(self).node().id as int),
            !old(fs).is_dir(old(self).node().id as int),
            old(self).pos() + buf@.len() <= usize::MAX,
        ensures
            final(fs).wf(),
            r == buf@.len(),
            final(self).pos() == old(self).pos() + r,
            final(self).node() == old(self).node(),
            final(self).can_read() == old(self).can_read(),
            final(self).can_write() == old(self).can_write(),
            final(fs).slots() == old(fs).slots(),
            other_inodes_same(*old(fs), *final(fs), old(self).node().id as int),
            final(fs).allocated(old(self).node().id as int),
            final(fs).nlink(old(self).node().id as int) == old(fs).nlink(old(self).node().id as int),
            !final(fs).is_dir(old(self).node().id as int),
            buf@.len() == 0 ==> final(fs).data(old(self).node().id as int) == old(fs).data(
                old(self).node().id as int,
            ),
            buf@.len() > 0 ==> final(fs).data(old(self).node().id as int) == written(
                old(fs).data(old(self).node().id as int),
                old(self).pos() as int,
                buf@,
            ),
    {
        let n = self.inode.write_at(fs, self.offset, buf);
        self.offset = self.offset + n;
        n
    }

    /// The bytes from the offset to the end of the file; the offset moves
    /// to the end.
    #[verifier::spinoff_prover]
    pub fn read_all(&mut self, fs: &FileSystem) -> (r: Vec<u8>)
        requires
            fs.wf(),
            fs.allocated(old(self).node().id as int),
            !fs.is_dir(old(self).node().id as int),
        ensures
            ({
                let data = fs.data(old(self).node().id as int);
                let off = old(self).pos();
                &&& off >= data.len() ==> r@ == Seq::<u8>::empty() && final(self).pos() == off
                &&& off < data.len() ==> r@ == data.subrange(off as int, data.len() as int)
                    && final(self).pos() == data.len()
            }),
            final(self).node() == old(self).node(),
            final(self).can_read() == old(self).can_read(),
            final(self).can_write() == old(self).can_write(),
    {
        let ghost data = fs.data(self.inode.id as int);
        let ghost off0 = self.offset;
        let mut v: Vec<u8> = Vec::new();
        let mut done = false;
        while !done
            invariant
                fs.wf(),
                fs.allocated(self.inode.id as int),
                !fs.is_dir(self.inode.id as int),
                data == fs.data(self.inode.id as int),
                self.inode == old(self).inode,
                self.readable == old(self).readable,
                self.writable == old(self).writable,
                off0 == old(self).offset,
                off0 >= data.len() ==> self.offset == off0 && v@.len() == 0,
                off0 < data.len() ==> off0 <= self.offset <= data.len() && v@ == data.subrange(
                    off0 as int,
                    self.offset as int,
                ),
                done && off0 < data.len() ==> self.offset == data.len(),
            decreases data.len() - self.offset, if done { 0int } else { 1int },
        {
            let mut buffer: Vec<u8> = vec![0u8; 512];
            let n = self.read(fs, &mut buffer);
            if n == 0 {
                done = true;
            } else {
                let mut k: usize = 0;
                let ghost v0 = v@;
                while k < n
                    invariant
                        k <= n,
                        n <= buffer@.len(),
                        v@ == v0 + buffer@.take(k as int),
                    decreases n - k,
                {
                    v.push(buffer[k]);
                    k = k + 1;
                    assert(v@ =~= v0 + buffer@.take(k as int));
                }
                proof {
                    assert(v@ =~= data.subrange(off0 as int, self.offset as int));
                }
            }
        }
        v
    }

    /// The metadata of the file: device 0, its inode number, its kind and
    /// its current link count.
    pub fn stat(&self, fs: &FileSystem) -> (r: Option<Stat>)
        requires
            fs.wf(),
            fs.allocated(self.node().id as int),
        ensures
            r matches Some(st) && st.dev == 0 && st.ino == self.node().id as u64 && st.mode.value() == (
            if fs.is_dir(self.node().id as int) {
                StatMode::DIR
            } else {
                StatMode::FILE
            }) && st.nlink == fs.nlink(self.node().id as int) && st.pad@ == Seq::new(7, |i: int| 0u64),
    {
        let (id, nlink, is_dir) = self.inode.stat(fs);
        let st = Stat { dev: 0, ino: id as u64, mode: StatMode::of_kind(is_dir), nlink, pad: [0u64; 7] };
        assert(st.pad@ =~= Seq::new(7, |i: int| 0u64));
        Some(st)
    }
}

/// Open the file `name` of the root directory with `flags`. With `CREATE`,
/// a missing file is created and an existing one truncated; without it, a
/// missing file gives `None` and an existing one is truncated only with
/// `TRUNC`. Each open has its own offset, starting at 0, and the access
/// that `flags` grant.
pub fn open_file(fs: &mut FileSystem, name: &Vec<u8>, flags: OpenFlags) -> (r: Option<OSInode>)
    requires
        old(fs).wf(),
        flags.value() & OpenFlags::CREATE == OpenFlags::CREATE ==> valid_name(name@)
            && old(fs).inode_count() < u32::MAX,
    ensures
        final(fs).wf(),
        ({
            let create = flags.value() & OpenFlags::CREATE == OpenFlags::CREATE;
            let trunc = flags.value() & OpenFlags::TRUNC == OpenFlags::TRUNC;
            let found = has_name(old(fs).slots(), name@);
            &&& r is None <==> !create && !found
            &&& r is None ==> *final(fs) == *old(fs)
            &&& r matches Some(f) ==> {
                &&& (f.can_read(), f.can_write()) == access_of(flags.value())
                &&& f.pos() == 0
                &&& final(fs).allocated(f.node().id as int)
                &&& !final(fs).is_dir(f.node().id as int)
                &&& (found ==> exists|i: int|
                    #[trigger] first_match(old(fs).slots(), i, name@) && f.node().id == old(
                        fs,
                    ).slots()[i].1)
                &&& (found ==> final(fs).slots() == old(fs).slots())
                &&& (found && (create || trunc) ==> final(fs).data(f.node().id as int)
                    == Seq::<u8>::empty())
                &&& (found && !(create || trunc) ==> *final(fs) == *old(fs))
                &&& (!found ==> slot_added(old(fs).slots(), final(fs).slots(), name@, f.node().id)
                    && first_free_inode(*old(fs), f.node().id as int) && final(fs).data(
                    f.node().id as int,
                ) == Seq::<u8>::empty())
            }
        }),
{
    let (readable, writable) = flags.read_write();
    let root = Inode::root();
    if flags.contains(OpenFlags::CREATE) {
        match root.find(fs, name) {
            Some(inode) => {
                proof {
                    let i = choose|i: int| first_match(fs.slots(), i, name@) && inode.id == #[trigger] fs.slots()[i].1;
                    assert(fs.slots()[i].1 != 0);
                }
                inode.clear(fs);
                Some(OSInode::new(readable, writable, inode))
            },
            None => match root.create(fs, name) {
                Some(inode) => Some(OSInode::new(readable, writable, inode)),
                None => None,
            },
        }
    } else {
        match root.find(fs, name) {
            Some(inode) => {
                proof {
                    let i = choose|i: int| first_match(fs.slots(), i, name@) && inode.id == #[trigger] fs.slots()[i].1;
                    assert(fs.slots()[i].1 != 0);
                }
                if flags.contains(OpenFlags::TRUNC) {
                    inode.clear(fs);
                }
                Some(OSInode::new(readable, writable, inode))
            },
            None => None,
        }
    }
}

/// Add the name `new_name` to the root directory for the file `old_name`;
/// see `Inode::link`.
pub fn link_file(fs: &mut FileSystem, old_name: &Vec<u8>, new_name: &Vec<u8>) -> (r: Option<()>)
    requires
        old(fs).wf(),
    ensures
        final(fs).wf(),
        r is Some <==> {
            &&& valid_name(new_name@)
            &&& !has_name(old(fs).slots(), new_name@)
            &&& exists|i: int|
                #[trigger] first_match(old(fs).slots(), i, old_name@) && old(fs).nlink(
                    old(fs).slots()[i].1 as int,
                ) < u32::MAX
        },
        r is None ==> *final(fs) == *old(fs),
        r is Some ==> exists|i: int|
            {
                let id = old(fs).slots()[i].1;
                &&& #[trigger] first_match(old(fs).slots(), i, old_name@)
                &&& slot_added(old(fs).slots(), final(fs).slots(), new_name@, id)
                &&& final(fs).nlink(id as int) == old(fs).nlink(id as int) + 1
                &&& final(fs).data(id as int) == old(fs).data(id as int)
                &&& other_inodes_same(*old(fs), *final(fs), id as int)
            },
{
    Inode::root().link(fs, old_name, new_name)
}

/// Remove the name `name` from the root directory; see `Inode::unlink`.
pub fn unlink_file(fs: &mut FileSystem, name: &Vec<u8>) -> (r: Option<()>)
    requires
        old(fs).wf(),
    ensures
        final(fs).wf(),
        r is Some <==> has_name(old(fs).slots(), name@),
        r is None ==> *final(fs) == *old(fs),
        r is Some ==> !has_name(final(fs).slots(), name@),
        r is Some ==> exists|i: int|
            {
                let id = old(fs).slots()[i].1 as int;
                &&& #[trigger] first_match(old(fs).slots(), i, name@)
                &&& final(fs).slots() == old(fs).slots().update(i, (Seq::<u8>::empty(), 0u32))
                &&& old(fs).nlink(id) == 1 ==> !final(fs).allocated(id)
                &&& old(fs).nlink(id) > 1 ==> final(fs).allocated(id) && final(fs).nlink(id)
                    == old(fs).nlink(id) - 1 && final(fs).data(id) == old(fs).data(id)
                &&& other_inodes_same(*old(fs), *final(fs), id)
            },
{
    Inode::root().unlink(fs, name)
}

/// A file's link count is the number of directory entries that name it,
/// and at least one; every live entry names a file.
pub proof fn law_nlink_counts_names(fs: FileSystem)
    requires
        fs.wf(),
    ensures
        forall|id: int| #[trigger] fs.allocated(id) ==> 0 <= id < fs.inode_count(),
        fs.allocated(0) && fs.is_dir(0),
        forall|k: int|
            0 <= k < fs.slots().len() && (#[trigger] fs.slots()[k]).1 == 0 ==> fs.slots()[k].0.len() == 0,
        unique_names(fs.slots()),
        forall|id: int|
            0 < id < fs.inode_count() && #[trigger] fs.allocated(id) ==> !fs.is_dir(id) && fs.nlink(id)
                == link_count(fs.slots(), id as u32) && fs.nlink(id) >= 1,
        forall|k: int|
            0 <= k < fs.slots().len() && (#[trigger] fs.slots()[k]).1 != 0 ==> fs.allocated(
                fs.slots()[k].1 as int,
            ) && fs.slots()[k].0.len() <= NAME_LENGTH_LIMIT,
{
}

} // verus!
