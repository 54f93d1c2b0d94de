//! File system calls, on the descriptor table of the calling process and on
//! the file system.
use vstd::prelude::*;
use crate::fs::{
    access_of, first_match, has_name, link_file, open_file, other_inodes_same, slot_added, unlink_file, valid_name,
    written, FileSystem, OSInode, OpenFlags, Stat, StatMode,
};
use crate::page_table::{
    buffer_mapped, seg_total, segment_ok, translated_byte_buffer, BufferSegment, PhysMem,
    SATP_PPN_MASK, SATP_SV39,
};
use crate::process::{FileDesc, TaskControlBlock};
use crate::syscall::user::{
    check_user_store, lemma_store_ok_sub, le_encode, load_user, push_le, stored, store_user, user_bytes, user_load_ok,
    user_store_ok,
};
use crate::memory_set::MemorySet;
use crate::pipe::{step_count, write_step, Pipe, PipeProgress, PipeRingBuffer};

verus! {

/// The root frame of the page table that the token of `task`'s address
/// space names.
pub open spec fn user_root(task: TaskControlBlock) -> int {
    ((SATP_SV39 | (task.inner.memory_set.root() as u64)) & SATP_PPN_MASK) as int
}

/// The open descriptor `fd` of `task`, if any.
pub open spec fn descriptor(task: TaskControlBlock, fd: usize) -> Option<FileDesc> {
    if fd < task.inner.fd_table@.len() {
        task.inner.fd_table@[fd as int]
    } else {
        None
    }
}

/// Descriptor `fd` of `task` is open for writing.
pub open spec fn may_write(task: TaskControlBlock, fd: usize) -> bool {
    match descriptor(task, fd) {
        Some(d) => d.writable,
        None => false,
    }
}

/// Descriptor `fd` of `task` is open for reading.
pub open spec fn may_read(task: TaskControlBlock, fd: usize) -> bool {
    match descriptor(task, fd) {
        Some(d) => d.readable,
        None => false,
    }
}

/// `segs` are the pieces, in address order, of the user buffer
/// `[buf, buf + len)` in the physical pages that the page table rooted at
/// `root` maps it to.
pub open spec fn buffer_pieces(mem: PhysMem, root: int, segs: Seq<BufferSegment>, buf: int, len: int) -> bool {
    &&& seg_total(segs) == len
    &&& segs.len() == crate::page_table::pages_touched(buf, len)
    &&& forall|k: int| 0 <= k < segs.len() ==> #[trigger] segment_ok(mem.ptes(), root, segs, buf, buf + len, k)
}

/// `r` grants the access: it holds the descriptor and the pieces of the
/// user buffer.
pub open spec fn access_granted(
    task: TaskControlBlock,
    mem: PhysMem,
    fd: usize,
    buf: usize,
    len: usize,
    r: Result<(FileDesc, Vec<BufferSegment>), isize>,
) -> bool {
    match r {
        Ok((d, segs)) => descriptor(task, fd) == Some(d) && buffer_pieces(
            mem,
            user_root(task),
            segs@,
            buf as int,
            len as int,
        ),
        Err(_) => false,
    }
}

/// The user buffer `[buf, buf + len)` lies in pages that `task`'s address
/// space maps.
pub open spec fn user_buffer_ok(task: TaskControlBlock, mem: PhysMem, buf: usize, len: usize) -> bool {
    &&& mem.wf()
    &&& buf + len <= u64::MAX
    &&& buffer_mapped(mem.ptes(), mem.frame_count() as int, user_root(task), buf as int, len as int)
}

/// Check a read or write on descriptor `fd` and translate the user buffer
/// `[buf, buf + len)`: the descriptor and the buffer's pieces in physical
/// pages, in address order.
fn file_access(
    task: &TaskControlBlock,
    mem: &PhysMem,
    fd: usize,
    buf: usize,
    len: usize,
    write: bool,
) -> (r: Result<(FileDesc, Vec<BufferSegment>), isize>)
    requires
        (if write {
            may_write(*task, fd)
        } else {
            may_read(*task, fd)
        }) ==> user_buffer_ok(*task, *mem, buf, len),
    ensures
        (if write {
            may_write(*task, fd)
        } else {
            may_read(*task, fd)
        }) ==> access_granted(*task, *mem, fd, buf, len, r),
        !(if write {
            may_write(*task, fd)
        } else {
            may_read(*task, fd)
        }) ==> r == Err::<(FileDesc, Vec<BufferSegment>), isize>(-1isize),
{
    if fd >= task.inner.fd_table.len() {
        return Err(-1);
    }
    let desc = match task.inner.fd_table[fd] {
        Some(d) => d,
        None => {
            return Err(-1);
        },
    };
    if (write && !desc.writable) || (!write && !desc.readable) {
        return Err(-1);
    }
    let token = task.get_user_token();
    let segs = translated_byte_buffer(mem, token, buf as u64, len as u64);
    Ok((desc, segs))
}

/// An open-file object, as the kernel's table of them holds it under the
/// number that a descriptor's `file` names.
#[derive(Copy, Clone)]
pub enum OpenFile {
    /// A regular file of the file system.
    Regular(OSInode),
    /// An end of the pipe whose ring buffer is the kernel's ring buffer
    /// with this index.
    PipeEnd(Pipe, usize),
}

/// What becomes of a `read` or `write` on a descriptor.
pub enum Transfer {
    /// The call is over, with this result.
    Done(isize),
    /// One step of a pipe transfer is over: on `Done` the call is over with
    /// that count; on `Wait` the caller suspends the process and calls
    /// again with that progress.
    Step(PipeProgress),
    /// The descriptor names the console or no open file: the caller moves
    /// the bytes through these pieces of the user buffer, in physical
    /// pages, in address order.
    Pieces(FileDesc, Vec<BufferSegment>),
}

/// The open regular file of `files` that descriptor `d` names, if any: the
/// entry under its `file` number, holding an inode of `fs` that is in use
/// and not a directory.
pub open spec fn regular_file(files: Seq<Option<OpenFile>>, fs: FileSystem, d: FileDesc) -> Option<OSInode> {
    if d.file < files.len() {
        match files[d.file as int] {
            Some(OpenFile::Regular(f)) => if fs.allocated(f.node().id as int) && !fs.is_dir(f.node().id as int) {
                Some(f)
            } else {
                None
            },
            _ => None,
        }
    } else {
        None
    }
}

/// The pipe end of `files` that descriptor `d` names, with the index of
/// its ring buffer among `n` ring buffers, if any.
pub open spec fn pipe_file(files: Seq<Option<OpenFile>>, n: int, d: FileDesc) -> Option<(Pipe, usize)> {
    if d.file < files.len() {
        match files[d.file as int] {
            Some(OpenFile::PipeEnd(p, k)) => if k < n {
                Some((p, k))
            } else {
                None
            },
            _ => None,
        }
    } else {
        None
    }
}

/// The open regular file of `files` that descriptor `d` names, if any.
fn find_regular(files: &Vec<Option<OpenFile>>, fs: &FileSystem, d: FileDesc) -> (r: Option<OSInode>)
    ensures
        r == regular_file(files@, *fs, d),
{
    if d.file < files.len() {
        match files[d.file] {
            Some(OpenFile::Regular(f)) => {
                if fs.is_regular(f.node_id()) {
                    Some(f)
                } else {
                    None
                }
            },
            _ => None,
        }
    } else {
        None
    }
}

/// The pipe end of `files` that descriptor `d` names, with the index of
/// its ring buffer among `n`, if any.
fn find_pipe(files: &Vec<Option<OpenFile>>, n: usize, d: FileDesc) -> (r: Option<(Pipe, usize)>)
    ensures
        r == pipe_file(files@, n as int, d),
{
    if d.file < files.len() {
        match files[d.file] {
            Some(OpenFile::PipeEnd(p, k)) => {
                if k < n {
                    Some((p, k))
                } else {
                    None
                }
            },
            _ => None,
        }
    } else {
        None
    }
}

/// Every ring buffer of `rings` is well formed, with its write end
/// registered.
pub open spec fn rings_ok(rings: Seq<PipeRingBuffer>) -> bool {
    forall|k: int| 0 <= k < rings.len() ==> (#[trigger] rings[k]).wf() && rings[k].write_end_registered()
}

/// `r1` is `r0` after a transfer step: same write end, these contents.
pub open spec fn ring_after(r0: PipeRingBuffer, r1: PipeRingBuffer, contents: Seq<u8>) -> bool {
    &&& r1.wf()
    &&& r1.write_end_registered() == r0.write_end_registered()
    &&& r1.write_ends() == r0.write_ends()
    &&& r1.contents() == contents
}

/// Write `len` bytes at user address `buf` to descriptor `fd`, of which
/// `done` are already written; the open-file objects are `files`, by
/// number, and the pipes' ring buffers `rings`. `Done(-1)` when `fd` is not
/// open for writing. On a regular file the bytes are written at its offset
/// (see `OSInode::write_from_user`): `Done(len)`, or `Done(-1)` with nothing
/// written when the buffer cannot be loaded or the offset would overflow.
/// On the write end of a pipe, one step of `Pipe::write` moves bytes of the
/// buffer after the first `done` into the ring buffer: `Step` with the
/// progress, or `Done(-1)` with nothing moved when the buffer cannot be
/// loaded or the end is not a write end. Otherwise `Pieces`: the
/// descriptor and the buffer's pieces.
pub fn sys_write(
    task: &TaskControlBlock,
    mem: &PhysMem,
    fs: &mut FileSystem,
    files: &mut Vec<Option<OpenFile>>,
    rings: &mut Vec<PipeRingBuffer>,
    fd: usize,
    buf: usize,
    len: usize,
    done: usize,
) -> (r: Transfer)
    requires
        old(fs).wf(),
        rings_ok(old(rings)@),
        done <= len,
        task.inner.memory_set.wf(mem),
        may_write(*task, fd) ==> user_buffer_ok(*task, *mem, buf, len),
    ensures
        final(fs).wf(),
        rings_ok(final(rings)@),
        !may_write(*task, fd) ==> r == Transfer::Done(-1isize) && *final(fs) == *old(fs) && final(files)@ == old(
            files,
        )@ && final(rings)@ == old(rings)@,
        may_write(*task, fd) ==> {
            let d = descriptor(*task, fd).unwrap();
            let bytes = user_bytes(task.inner.memory_set, *mem, buf as int, len as int);
            let loadable = user_load_ok(task.inner.memory_set, buf as int, len as int);
            match regular_file(old(files)@, *old(fs), d) {
                Some(f) => {
                    let id = f.node().id as int;
                    let ok = loadable && f.pos() + len <= usize::MAX;
                    &&& final(rings)@ == old(rings)@
                    &&& !ok ==> r == Transfer::Done(-1isize) && *final(fs) == *old(fs) && final(files)@ == old(
                        files,
                    )@
                    &&& ok ==> {
                        &&& r == Transfer::Done(len as isize)
                        &&& final(files)@.len() == old(files)@.len()
                        &&& final(files)@[d.file as int] matches Some(OpenFile::Regular(f1))
                        &&& f1.pos() == f.pos() + len
                        &&& f1.node() == f.node()
                        &&& f1.can_read() == f.can_read()
                        &&& f1.can_write() == f.can_write()
                        &&& final(files)@ == old(files)@.update(d.file as int, Some(OpenFile::Regular(f1)))
                        &&& final(fs).slots() == old(fs).slots()
                        &&& other_inodes_same(*old(fs), *final(fs), id)
                        &&& len > 0 ==> final(fs).data(id) == written(old(fs).data(id), f.pos() as int, bytes)
                        &&& len == 0 ==> final(fs).data(id) == old(fs).data(id)
                    }
                },
                None => match pipe_file(old(files)@, old(rings)@.len() as int, d) {
                    Some((p, k)) => {
                        let ring = old(rings)@[k as int];
                        let step = write_step(ring.contents(), bytes, done as int);
                        &&& *final(fs) == *old(fs)
                        &&& final(files)@ == old(files)@
                        &&& !(loadable && p.is_writable()) ==> r == Transfer::Done(-1isize) && final(rings)@
                            == old(rings)@
                        &&& loadable && p.is_writable() ==> r == Transfer::Step(step.1) && final(rings)@.len()
                            == old(rings)@.len() && ring_after(ring, final(rings)@[k as int], step.0)
                            && final(rings)@ == old(rings)@.update(k as int, final(rings)@[k as int])
                    },
                    None => *final(fs) == *old(fs) && final(files)@ == old(files)@ && final(rings)@ == old(
                        rings,
                    )@ && (r matches Transfer::Pieces(d1, segs) && d1 == d && buffer_pieces(
                        *mem,
                        user_root(*task),
                        segs@,
                        buf as int,
                        len as int,
                    )),
                },
            }
        },
{
    if !may_write_check(task, fd) {
        return Transfer::Done(-1);
    }
    let d = task.inner.fd_table[fd].unwrap();
    match find_regular(files, fs, d) {
        Some(f) => {
            let mut f = f;
            match f.write_from_user(fs, &task.inner.memory_set, mem, buf, len) {
                Some(n) => {
                    files.set(d.file, Some(OpenFile::Regular(f)));
                    Transfer::Done(n as isize)
                },
                None => Transfer::Done(-1),
            }
        },
        None => match find_pipe(files, rings.len(), d) {
            Some((p, k)) => {
                let bytes = match load_user(&task.inner.memory_set, mem, buf as u64, len as u64) {
                    Some(v) => v,
                    None => {
                        return Transfer::Done(-1);
                    },
                };
                if !p.writable() {
                    return Transfer::Done(-1);
                }
                let ghost before = rings@;
                let mut ring = rings.remove(k);
                let progress = p.write(&mut ring, &bytes, done);
                rings.insert(k, ring);
                proof {
                    assert(rings@ =~= before.update(k as int, rings@[k as int]));
                    assert forall|j: int| 0 <= j < rings@.len() implies (#[trigger] rings@[j]).wf()
                        && rings@[j].write_end_registered() by {
                        if j != k {
                            assert(rings@[j] == before[j]);
                        }
                    }
                }
                Transfer::Step(progress)
            },
            None => match file_access(task, mem, fd, buf, len, true) {
                Ok((d1, segs)) => Transfer::Pieces(d1, segs),
                Err(e) => Transfer::Done(e),
            },
        },
    }
}

/// Read up to `len` bytes into user address `buf` from descriptor `fd`, of
/// which `done` are already read; the open-file objects are `files`, by
/// number, and the pipes' ring buffers `rings`. `Done(-1)` when `fd` is not
/// open for reading. On a regular file the bytes from its offset are stored
/// (see `OSInode::read_to_user`): `Done` with their count, or `Done(-1)`
/// with nothing stored when a byte of the buffer may not be stored there.
/// On the read end of a pipe, one step of `Pipe::read` moves the oldest
/// buffered bytes, as many as remain to read, to the buffer after the first
/// `done`, and the read is over when every write end is closed: `Step` with
/// the progress, or `Done(-1)` with nothing moved when a byte of the buffer
/// may not be stored there or the end is not a read end. Otherwise
/// `Pieces`: the descriptor and the buffer's pieces.
pub fn sys_read(
    task: &TaskControlBlock,
    mem: &mut PhysMem,
    fs: &FileSystem,
    files: &mut Vec<Option<OpenFile>>,
    rings: &mut Vec<PipeRingBuffer>,
    fd: usize,
    buf: usize,
    len: usize,
    done: usize,
) -> (r: Transfer)
    requires
        fs.wf(),
        rings_ok(old(rings)@),
        done <= len,
        task.inner.memory_set.wf(old(mem)),
        may_read(*task, fd) ==> user_buffer_ok(*task, *old(mem), buf, len),
    ensures
        task.inner.memory_set.wf(final(mem)),
        rings_ok(final(rings)@),
        !may_read(*task, fd) ==> r == Transfer::Done(-1isize) && *final(mem) == *old(mem) && final(files)@ == old(
            files,
        )@ && final(rings)@ == old(rings)@,
        may_read(*task, fd) ==> {
            let d = descriptor(*task, fd).unwrap();
            let storable = user_store_ok(task.inner.memory_set, *old(mem), buf as int, len as int);
            match regular_file(old(files)@, *fs, d) {
                Some(f) => {
                    let data = fs.data(f.node().id as int);
                    let off = f.pos() as int;
                    let n = if off >= data.len() {
                        0
                    } else {
                        vstd::math::min(len as int, data.len() - off)
                    };
                    &&& final(rings)@ == old(rings)@
                    &&& !storable ==> r == Transfer::Done(-1isize) && *final(mem) == *old(mem) && final(files)@
                        == old(files)@
                    &&& storable ==> {
                        &&& r == Transfer::Done(n as isize)
                        &&& final(files)@.len() == old(files)@.len()
                        &&& final(files)@[d.file as int] matches Some(OpenFile::Regular(f1))
                        &&& f1.pos() == off + n
                        &&& f1.node() == f.node()
                        &&& f1.can_read() == f.can_read()
                        &&& f1.can_write() == f.can_write()
                        &&& final(files)@ == old(files)@.update(d.file as int, Some(OpenFile::Regular(f1)))
                        &&& stored(
                            task.inner.memory_set,
                            *old(mem),
                            *final(mem),
                            buf as int,
                            if n == 0 {
                                Seq::empty()
                            } else {
                                data.subrange(off, off + n)
                            },
                        )
                    }
                },
                None => match pipe_file(old(files)@, old(rings)@.len() as int, d) {
                    Some((p, k)) => {
                        let ring = old(rings)@[k as int];
                        let n = step_count(ring.contents().len() as int, len - done);
                        &&& final(files)@ == old(files)@
                        &&& !(storable && p.is_readable()) ==> r == Transfer::Done(-1isize) && final(rings)@
                            == old(rings)@ && *final(mem) == *old(mem)
                        &&& storable && p.is_readable() ==> {
                            &&& r == Transfer::Step(
                                if done + n == len || ring.write_ends() == 0 {
                                    PipeProgress::Done((done + n) as usize)
                                } else {
                                    PipeProgress::Wait((done + n) as usize)
                                },
                            )
                            &&& final(rings)@.len() == old(rings)@.len()
                            &&& ring_after(ring, final(rings)@[k as int], ring.contents().skip(n))
                            &&& final(rings)@ == old(rings)@.update(k as int, final(rings)@[k as int])
                            &&& stored(
                                task.inner.memory_set,
                                *old(mem),
                                *final(mem),
                                buf + done,
                                ring.contents().take(n),
                            )
                        }
                    },
                    None => *final(mem) == *old(mem) && final(files)@ == old(files)@ && final(rings)@ == old(
                        rings,
                    )@ && (r matches Transfer::Pieces(d1, segs) && d1 == d && buffer_pieces(
                        *old(mem),
                        user_root(*task),
                        segs@,
                        buf as int,
                        len as int,
                    )),
                },
            }
        },
{
    if !may_read_check(task, fd) {
        return Transfer::Done(-1);
    }
    let d = task.inner.fd_table[fd].unwrap();
    match find_regular(files, fs, d) {
        Some(f) => {
            let mut f = f;
            match f.read_to_user(fs, &task.inner.memory_set, mem, buf, len) {
                Some(n) => {
                    files.set(d.file, Some(OpenFile::Regular(f)));
                    Transfer::Done(n as isize)
                },
                None => Transfer::Done(-1),
            }
        },
        None => match find_pipe(files, rings.len(), d) {
            Some((p, k)) => {
                if !check_user_store(&task.inner.memory_set, mem, buf, len) || !p.readable() {
                    return Transfer::Done(-1);
                }
                let ghost before = rings@;
                let mut ring = rings.remove(k);
                let ghost c = ring.contents();
                let closed = ring.all_write_ends_closed();
                let mut kbuf: Vec<u8> = Vec::new();
                let mut j: usize = 0;
                while j < len
                    invariant
                        j <= len,
                        kbuf@.len() == j,
                    decreases len - j,
                {
                    kbuf.push(0);
                    j = j + 1;
                }
                let progress = p.read(&mut ring, &mut kbuf, done, closed);
                let ghost n = step_count(c.len() as int, len - done);
                proof {
                    assert(kbuf@.subrange(done as int, done + n) =~= c.take(n));
                }
                let mut piece: Vec<u8> = Vec::new();
                let mut i: usize = done;
                let end = match progress {
                    PipeProgress::Done(e) => e,
                    PipeProgress::Wait(e) => e,
                };
                while i < end
                    invariant
                        done <= i <= end,
                        end == done + n,
                        end <= kbuf@.len(),
                        piece@ == kbuf@.subrange(done as int, i as int),
                    decreases end - i,
                {
                    piece.push(kbuf[i]);
                    i = i + 1;
                    assert(piece@ =~= kbuf@.subrange(done as int, i as int));
                }
                rings.insert(k, ring);
                proof {
                    lemma_store_ok_sub(task.inner.memory_set, *mem, buf as int, len as int, done as int, n);
                    assert(rings@ =~= before.update(k as int, rings@[k as int]));
                    assert forall|q: int| 0 <= q < rings@.len() implies (#[trigger] rings@[q]).wf()
                        && rings@[q].write_end_registered() by {
                        if q != k {
                            assert(rings@[q] == before[q]);
                        }
                    }
                }
                store_user(&task.inner.memory_set, mem, buf + done, &piece);
                Transfer::Step(progress)
            },
            None => match file_access(task, mem, fd, buf, len, false) {
                Ok((d1, segs)) => Transfer::Pieces(d1, segs),
                Err(e) => Transfer::Done(e),
            },
        },
    }
}

/// Whether descriptor `fd` is open for writing.
fn may_write_check(task: &TaskControlBlock, fd: usize) -> (r: bool)
    ensures
        r == may_write(*task, fd),
{
    fd < task.inner.fd_table.len() && match task.inner.fd_table[fd] {
        Some(d) => d.writable,
        None => false,
    }
}

/// Whether descriptor `fd` is open for reading.
fn may_read_check(task: &TaskControlBlock, fd: usize) -> (r: bool)
    ensures
        r == may_read(*task, fd),
{
    fd < task.inner.fd_table.len() && match task.inner.fd_table[fd] {
        Some(d) => d.readable,
        None => false,
    }
}

/// Open the file `name` of the root directory with `flags` (see
/// `open_file`) as open-file object `file`, under the lowest free
/// descriptor of the calling process, or a new one at the end of its
/// table. Returns the descriptor and the open file; -1 and nothing when the
/// file does not exist and `flags` do not ask to create it.
pub fn sys_open(task: &mut TaskControlBlock, fs: &mut FileSystem, name: &Vec<u8>, flags: OpenFlags, file: usize) -> (r: (
    isize,
    Option<OSInode>,
))
    requires
        old(fs).wf(),
        flags.value() & OpenFlags::CREATE == OpenFlags::CREATE ==> valid_name(name@)
            && old(fs).inode_count() < u32::MAX,
        old(task).inner.fd_table@.len() < isize::MAX,
    ensures
        final(fs).wf(),
        final(task).pid == old(task).pid,
        ({
            let create = flags.value() & OpenFlags::CREATE == OpenFlags::CREATE;
            let found = has_name(old(fs).slots(), name@);
            let table = old(task).inner.fd_table@;
            &&& r.1 is None <==> !create && !found
            &&& r.1 is None ==> r.0 == -1 && *final(fs) == *old(fs) && *final(task) == *old(task)
            &&& r.1 is Some ==> {
                let fd = r.0 as int;
                &&& 0 <= fd <= table.len()
                &&& forall|k: int| 0 <= k < fd ==> (#[trigger] table[k]) is Some
                &&& fd < table.len() ==> table[fd] is None && final(task).inner.fd_table@ == table.update(
                    fd,
                    Some(FileDesc { readable: access_of(flags.value()).0, writable: access_of(flags.value()).1, file }),
                )
                &&& fd == table.len() ==> final(task).inner.fd_table@ == table.push(
                    Some(FileDesc { readable: access_of(flags.value()).0, writable: access_of(flags.value()).1, file }),
                )
            }
        }),
{
    match open_file(fs, name, flags) {
        Some(inode) => {
            let (readable, writable) = flags.read_write();
            let fd = task.inner.alloc_fd();
            task.inner.fd_table.set(fd, Some(FileDesc { readable, writable, file }));
            proof {
                if fd < old(task).inner.fd_table@.len() {
                    assert(task.inner.fd_table@ =~= old(task).inner.fd_table@.update(
                        fd as int,
                        Some(FileDesc { readable, writable, file }),
                    ));
                } else {
                    assert(task.inner.fd_table@ =~= old(task).inner.fd_table@.push(
                        Some(FileDesc { readable, writable, file }),
                    ));
                }
            }
            (fd as isize, Some(inode))
        },
        None => (-1, None),
    }
}

/// Close descriptor `fd` of the calling process: 0, with the descriptor
/// freed; -1, with nothing changed, when it is not open.
pub fn sys_close(task: &mut TaskControlBlock, fd: usize) -> (r: isize)
    ensures
        descriptor(*old(task), fd) is None ==> r == -1 && *final(task) == *old(task),
        descriptor(*old(task), fd) is Some ==> r == 0 && final(task).inner.fd_table@ == old(
            task,
        ).inner.fd_table@.update(fd as int, None),
        final(task).pid == old(task).pid,
        final(task).inner.memory_set == old(task).inner.memory_set,
        final(task).inner.children == old(task).inner.children,
{
    if fd >= task.inner.fd_table.len() {
        return -1;
    }
    if task.inner.fd_table[fd].is_none() {
        return -1;
    }
    task.inner.fd_table.set(fd, None);
    0
}

/// Add the name `new_name` for the file `old_name` of the root directory:
/// 0 on success, -1 when `link_file` refuses.
pub fn sys_linkat(fs: &mut FileSystem, old_name: &Vec<u8>, new_name: &Vec<u8>) -> (r: isize)
    requires
        old(fs).wf(),
    ensures
        final(fs).wf(),
        r == 0 <==> {
            &&& valid_name(new_name@)
            &&& !has_name(old(fs).slots(), new_name@)
            &&& exists|i: int|
                #[trigger] first_match(old(fs).slots(), i, old_name@) && old(fs).nlink(
                    old(fs).slots()[i].1 as int,
                ) < u32::MAX
        },
        r == 0 || r == -1,
        r == -1 ==> *final(fs) == *old(fs),
        r == 0 ==> exists|i: int|
            {
                let id = old(fs).slots()[i].1;
                &&& #[trigger] first_match(old(fs).slots(), i, old_name@)
                &&& slot_added(old(fs).slots(), final(fs).slots(), new_name@, id)
                &&& final(fs).nlink(id as int) == old(fs).nlink(id as int) + 1
            },
{
    match link_file(fs, old_name, new_name) {
        Some(()) => 0,
        None => -1,
    }
}

/// Remove the name `name` from the root directory: 0 on success, -1, with
/// nothing changed, when no entry has that name.
pub fn sys_unlinkat(fs: &mut FileSystem, name: &Vec<u8>) -> (r: isize)
    requires
        old(fs).wf(),
    ensures
        final(fs).wf(),
        r == 0 <==> has_name(old(fs).slots(), name@),
        r == 0 ==> !has_name(final(fs).slots(), name@),
        r == 0 || r == -1,
        r == -1 ==> *final(fs) == *old(fs),
        r == 0 ==> exists|i: int|
            {
                let id = old(fs).slots()[i].1 as int;
                &&& #[trigger] first_match(old(fs).slots(), i, name@)
                &&& final(fs).slots() == old(fs).slots().update(i, (Seq::<u8>::empty(), 0u32))
                &&& old(fs).nlink(id) == 1 ==> !final(fs).allocated(id)
                &&& old(fs).nlink(id) > 1 ==> final(fs).allocated(id) && final(fs).nlink(id)
                    == old(fs).nlink(id) - 1
            },
{
    match unlink_file(fs, name) {
        Some(()) => 0,
        None => -1,
    }
}

/// The size of a `Stat` in user memory, in bytes.
pub const STAT_SIZE: usize = 80;

impl OSInode {
    /// Read from the offset into the user buffer `[buf, buf + len)` of
    /// `ms`, as many bytes as it holds and the file has, and advance the
    /// offset by that many; the count. `None`, with nothing changed, when a
    /// byte of the buffer may not be stored there (see `store_user`).
    pub fn read_to_user(&mut self, fs: &FileSystem, ms: &MemorySet, mem: &mut PhysMem, buf: usize, len: usize) -> (r:
        Option<usize>)
        requires
            fs.wf(),
            fs.allocated(old(self).node().id as int),
            !fs.is_dir(old(self).node().id as int),
            ms.wf(old(mem)),
        ensures
            ms.wf(final(mem)),
            r is None <==> !user_store_ok(*ms, *old(mem), buf as int, len as int),
            r is None ==> *final(self) == *old(self) && *final(mem) == *old(mem),
            r matches Some(n) ==> {
                let data = fs.data(old(self).node().id as int);
                let off = old(self).pos() as int;
                &&& n == if off >= data.len() {
                    0
                } else {
                    vstd::math::min(len as int, data.len() - off)
                }
                &&& final(self).pos() == off + n
                &&& final(self).node() == old(self).node()
                &&& final(self).can_read() == old(self).can_read()
                &&& final(self).can_write() == old(self).can_write()
                &&& stored(
                    *ms,
                    *old(mem),
                    *final(mem),
                    buf as int,
                    if n == 0 {
                        Seq::empty()
                    } else {
                        data.subrange(off, off + n)
                    },
                )
            },
    {
        if !check_user_store(ms, mem, buf, len) {
            return None;
        }
        let mut kbuf: Vec<u8> = Vec::new();
        let mut k: usize = 0;
        while k < len
            invariant
                k <= len,
                kbuf@.len() == k,
            decreases len - k,
        {
            kbuf.push(0);
            k = k + 1;
        }
        let ghost off = self.pos() as int;
        let n = self.read(fs, &mut kbuf);
        let mut got: Vec<u8> = Vec::new();
        let mut j: usize = 0;
        while j < n
            invariant
                j <= n,
                n <= kbuf@.len(),
                got@ == kbuf@.take(j as int),
            decreases n - j,
        {
            got.push(kbuf[j]);
            j = j + 1;
            assert(got@ =~= kbuf@.take(j as int));
        }
        proof {
            lemma_store_ok_sub(*ms, *mem, buf as int, len as int, 0, n as int);
            let data = fs.data(self.node().id as int);
            if n == 0 {
                assert(got@ =~= Seq::<u8>::empty());
            } else {
                assert(got@ =~= data.subrange(off, off + n));
            }
        }
        store_user(ms, mem, buf, &got);
        Some(n)
    }

    /// Write the user buffer `[buf, buf + len)` of `ms` at the offset and
    /// advance the offset past it (see `OSInode::write`); the count, `len`.
    /// `None`, with nothing changed, when a byte of the buffer may not be
    /// loaded (see `load_user`) or the offset would pass `usize::MAX`.
    pub fn write_from_user(&mut self, fs: &mut FileSystem, ms: &MemorySet, mem: &PhysMem, buf: usize, len: usize) -> (r:
        Option<usize>)
        requires
            old(fs).wf(),
            old(fs).allocated(old(self).node().id as int),
            !old(fs).is_dir(old(self).node().id as int),
            ms.wf(mem),
        ensures
            final(fs).wf(),
            r is None <==> !user_load_ok(*ms, buf as int, len as int) || old(self).pos() + len > usize::MAX,
            r is None ==> *final(self) == *old(self) && *final(fs) == *old(fs),
            r matches Some(n) ==> {
                let id = old(self).node().id as int;
                let bytes = user_bytes(*ms, *mem, buf as int, len as int);
                &&& n == len
                &&& final(self).pos() == old(self).pos() + len
                &&& final(self).node() == old(self).node()
                &&& final(self).can_read() == old(self).can_read()
                &&& final(self).can_write() == old(self).can_write()
                &&& final(fs).slots() == old(fs).slots()
                &&& other_inodes_same(*old(fs), *final(fs), id)
                &&& len == 0 ==> final(fs).data(id) == old(fs).data(id)
                &&& len > 0 ==> final(fs).data(id) == written(old(fs).data(id), old(self).pos() as int, bytes)
            },
    {
        let bytes = match load_user(ms, mem, buf as u64, len as u64) {
            Some(v) => v,
            None => {
                return None;
            },
        };
        if self.offset() > usize::MAX - len {
            return None;
        }
        let n = self.write(fs, &bytes);
        Some(n)
    }
}

/// The 8-byte little-endian encodings of `w`, one after the other.
pub open spec fn words_le(w: Seq<u64>) -> Seq<u8>
    decreases w.len(),
{
    if w.len() == 0 {
        Seq::empty()
    } else {
        words_le(w.drop_last()) + le_encode(w.last() as int, 8)
    }
}

/// The 80 bytes of `s` in user memory: the device and the inode number (8
/// bytes each), the mode and the link count (4 bytes each), then the 7
/// padding words, all little-endian.
pub open spec fn stat_bytes(s: Stat) -> Seq<u8> {
    le_encode(s.dev as int, 8) + le_encode(s.ino as int, 8) + le_encode(s.mode.value() as int, 4) + le_encode(
        s.nlink as int,
        4,
    ) + words_le(s.pad@)
}

/// The bytes of `s` in user memory.
fn encode_stat(s: &Stat) -> (r: Vec<u8>)
    ensures
        r@ == stat_bytes(*s),
        r@.len() == STAT_SIZE,
{
    let mut bytes: Vec<u8> = Vec::new();
    push_le(&mut bytes, s.dev, 8);
    push_le(&mut bytes, s.ino, 8);
    push_le(&mut bytes, s.mode.bits() as u64, 4);
    push_le(&mut bytes, s.nlink as u64, 4);
    let ghost head = bytes@;
    let mut k: usize = 0;
    while k < 7
        invariant
            k <= 7,
            head.len() == 24,
            bytes@ == head + words_le(s.pad@.take(k as int)),
            bytes@.len() == 24 + 8 * k,
        decreases 7 - k,
    {
        let ghost before = bytes@;
        push_le(&mut bytes, s.pad[k], 8);
        proof {
            assert(s.pad@.take(k + 1).drop_last() =~= s.pad@.take(k as int));
            assert(bytes@ =~= head + words_le(s.pad@.take(k + 1)));
        }
        k = k + 1;
    }
    assert(s.pad@.take(7) =~= s.pad@);
    assert(bytes@ =~= stat_bytes(*s));
    bytes
}

/// Store the metadata of the open regular file that descriptor `fd` names
/// among `files` (see `OSInode::stat`) at the caller's user address `st`.
/// 0; -1, with nothing stored, when `fd` is not open, its file is not an
/// open regular file of `files` (the console and pipes report no
/// metadata), or a byte of `[st, st + STAT_SIZE)` may not be stored there
/// (see `store_user`).
pub fn sys_fstat(
    task: &TaskControlBlock,
    mem: &mut PhysMem,
    fs: &FileSystem,
    files: &Vec<Option<OpenFile>>,
    fd: usize,
    st: usize,
) -> (r: isize)
    requires
        fs.wf(),
        task.inner.memory_set.wf(old(mem)),
    ensures
        task.inner.memory_set.wf(final(mem)),
        r == 0 <==> descriptor(*task, fd) is Some && regular_file(files@, *fs, descriptor(*task, fd).unwrap()) is Some
            && user_store_ok(task.inner.memory_set, *old(mem), st as int, STAT_SIZE as int),
        r != 0 ==> r == -1 && *final(mem) == *old(mem),
        r == 0 ==> {
            let id = regular_file(files@, *fs, descriptor(*task, fd).unwrap()).unwrap().node().id;
            exists|s: Stat|
                {
                    &&& s.dev == 0
                    &&& s.ino == id as u64
                    &&& s.mode.value() == StatMode::FILE
                    &&& s.nlink == fs.nlink(id as int)
                    &&& s.pad@ == Seq::new(7, |i: int| 0u64)
                    &&& stored(task.inner.memory_set, *old(mem), *final(mem), st as int, #[trigger] stat_bytes(s))
                }
        },
{
    if fd >= task.inner.fd_table.len() || task.inner.fd_table[fd].is_none() {
        return -1;
    }
    let d = task.inner.fd_table[fd].unwrap();
    let f = match find_regular(files, fs, d) {
        Some(f) => f,
        None => {
            return -1;
        },
    };
    let s = match f.stat(fs) {
        Some(s) => s,
        None => {
            return -1;
        },
    };
    let bytes = encode_stat(&s);
    if store_user(&task.inner.memory_set, mem, st, &bytes) {
        0
    } else {
        -1
    }
}

} // verus!
