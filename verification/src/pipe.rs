//! Pipes: a fixed-size FIFO ring buffer shared by a read end and a write end.
//!
//! The ring buffer is modelled by the sequence of unread bytes. Reading and
//! writing a user buffer may have to wait for the other end; each call below
//! performs as much of the request as the buffer allows and says whether the
//! request is complete or must be resumed after the caller yields.
use vstd::prelude::*;

verus! {

/// Capacity of a pipe's ring buffer in bytes.
pub const RING_BUFFER_SIZE: usize = 32;

/// Whether a ring buffer whose head equals its tail is full or empty.
#[derive(Copy, Clone, PartialEq, Eq, Structural)]
pub enum RingBufferStatus {
    Full,
    Empty,
    Normal,
}

/// Shared FIFO storage. `head` is the next read position, `tail` the next
/// write position; `status` distinguishes full from empty when they are equal.
pub struct PipeRingBuffer {
    arr: Vec<u8>,
    head: usize,
    tail: usize,
    status: RingBufferStatus,
    write_end: bool,
    live_write_ends: usize,
}

/// Number of unread bytes of a ring buffer with the given positions and status.
pub open spec fn ring_count(head: int, tail: int, status: RingBufferStatus) -> int {
    if status == RingBufferStatus::Empty {
        0
    } else if status == RingBufferStatus::Full {
        RING_BUFFER_SIZE as int
    } else if tail > head {
        tail - head
    } else {
        tail + RING_BUFFER_SIZE - head
    }
}

impl PipeRingBuffer {
    /// The buffer's internal invariant.
    pub closed spec fn wf(&self) -> bool {
        &&& self.arr@.len() == RING_BUFFER_SIZE
        &&& self.head < RING_BUFFER_SIZE
        &&& self.tail < RING_BUFFER_SIZE
        &&& (self.status == RingBufferStatus::Normal <==> self.head != self.tail)
    }

    /// Whether a write end has been registered with this buffer.
    pub closed spec fn write_end_registered(&self) -> bool {
        self.write_end
    }

    /// The number of live handles on the registered write end.
    pub closed spec fn write_ends(&self) -> usize {
        self.live_write_ends
    }

    /// The unread bytes, oldest first.
    pub closed spec fn contents(&self) -> Seq<u8> {
        Seq::new(
            ring_count(self.head as int, self.tail as int, self.status) as nat,
            |k: int| self.arr@[(self.head + k) % (RING_BUFFER_SIZE as int)],
        )
    }

    /// Create an empty ring buffer with no registered write end.
    pub fn new() -> (r: Self)
        ensures
            r.wf(),
            r.contents() == Seq::<u8>::empty(),
            !r.write_end_registered(),
            r.write_ends() == 0,
    {
        let r = Self {
            arr: vec![0u8; RING_BUFFER_SIZE],
            head: 0,
            tail: 0,
            status: RingBufferStatus::Empty,
            write_end: false,
            live_write_ends: 0,
        };
        assert(r.contents() =~= Seq::<u8>::empty());
        r
    }

    /// Register the buffer's write end, with one live handle on it.
    pub fn set_write_end(&mut self)
        requires
            old(self).wf(),
        ensures
            final(self).wf(),
            final(self).contents() == old(self).contents(),
            final(self).write_end_registered(),
            final(self).write_ends() == 1,
    {
        self.write_end = true;
        self.live_write_ends = 1;
    }

    /// One more live handle on the write end: a descriptor that holds it
    /// was duplicated.
    pub fn share_write_end(&mut self)
        requires
            old(self).wf(),
            old(self).write_ends() < usize::MAX,
        ensures
            final(self).wf(),
            final(self).contents() == old(self).contents(),
            final(self).write_end_registered() == old(self).write_end_registered(),
            final(self).write_ends() == old(self).write_ends() + 1,
    {
        self.live_write_ends = self.live_write_ends + 1;
    }

    /// One live handle on the write end fewer: a descriptor that held it
    /// was closed.
    pub fn drop_write_end(&mut self)
        requires
            old(self).wf(),
            old(self).write_ends() > 0,
        ensures
            final(self).wf(),
            final(self).contents() == old(self).contents(),
            final(self).write_end_registered() == old(self).write_end_registered(),
            final(self).write_ends() == old(self).write_ends() - 1,
    {
        self.live_write_ends = self.live_write_ends - 1;
    }

    /// Append one byte at the tail, preserving FIFO order.
    pub fn write_byte(&mut self, byte: u8)
        requires
            old(self).wf(),
            old(self).contents().len() < RING_BUFFER_SIZE,
        ensures
            final(self).wf(),
            final(self).contents() == old(self).contents().push(byte),
            final(self).write_end_registered() == old(self).write_end_registered(),
            final(self).write_ends() == old(self).write_ends(),
    {
        let ghost old_contents = self.contents();
        let ghost h = self.head as int;
        self.status = RingBufferStatus::Normal;
        self.arr.set(self.tail, byte);
        self.tail = (self.tail + 1) % RING_BUFFER_SIZE;
        if self.tail == self.head {
            self.status = RingBufferStatus::Full;
        }
        assert(self.contents().len() == old_contents.len() + 1);
        assert forall|k: int| 0 <= k < old_contents.len() implies self.contents()[k]
            == old_contents[k] by {
            assert((h + k) % 32 != (h + old_contents.len()) % 32);
        }
        assert(self.contents() =~= old_contents.push(byte));
    }

    /// Remove and return the oldest unread byte.
    pub fn read_byte(&mut self) -> (b: u8)
        requires
            old(self).wf(),
            old(self).contents().len() > 0,
        ensures
            final(self).wf(),
            b == old(self).contents()[0],
            final(self).contents() == old(self).contents().drop_first(),
            final(self).write_end_registered() == old(self).write_end_registered(),
            final(self).write_ends() == old(self).write_ends(),
    {
        let ghost old_contents = self.contents();
        self.status = RingBufferStatus::Normal;
        let c = self.arr[self.head];
        self.head = (self.head + 1) % RING_BUFFER_SIZE;
        if self.head == self.tail {
            self.status = RingBufferStatus::Empty;
        }
        assert(self.contents() =~= old_contents.drop_first());
        c
    }

    /// The number of unread bytes.
    pub fn available_read(&self) -> (n: usize)
        requires
            self.wf(),
        ensures
            n == self.contents().len(),
            n <= RING_BUFFER_SIZE,
    {
        if self.status == RingBufferStatus::Empty {
            0
        } else if self.status == RingBufferStatus::Full {
            RING_BUFFER_SIZE
        } else if self.tail > self.head {
            self.tail - self.head
        } else {
            self.tail + RING_BUFFER_SIZE - self.head
        }
    }

    /// The number of bytes that can be written before the buffer is full.
    pub fn available_write(&self) -> (n: usize)
        requires
            self.wf(),
        ensures
            n + self.contents().len() == RING_BUFFER_SIZE,
    {
        if self.status == RingBufferStatus::Full {
            0
        } else {
            RING_BUFFER_SIZE - self.available_read()
        }
    }

    /// Whether every handle on the registered write end has been released.
    pub fn all_write_ends_closed(&self) -> (r: bool)
        requires
            self.write_end_registered(),
        ensures
            r == (self.write_ends() == 0),
    {
        self.live_write_ends == 0
    }
}

/// One end of a pipe.
#[derive(Copy, Clone)]
pub struct Pipe {
    readable: bool,
    writable: bool,
}

/// Where a pipe transfer stands after one call: finished with the total count
/// of bytes moved, or waiting for the other end after the given progress.
#[derive(Copy, Clone, PartialEq, Eq, Structural)]
pub enum PipeProgress {
    Done(usize),
    Wait(usize),
}

/// Bytes moved by one step of a transfer: what is available, but no more than
/// what remains of the request.
pub open spec fn step_count(available: int, remaining: int) -> int {
    if available < remaining {
        available
    } else {
        remaining
    }
}

/// One read step on a ring buffer holding `contents` into `buf`, of which
/// `done` bytes are already read: the new buffer, what stays in the ring,
/// and the progress.
pub open spec fn read_step(contents: Seq<u8>, buf: Seq<u8>, done: int, write_ends_closed: bool) -> (
    Seq<u8>,
    Seq<u8>,
    PipeProgress,
) {
    let n = step_count(contents.len() as int, buf.len() - done);
    (
        buf.subrange(0, done) + contents.take(n) + buf.subrange(done + n, buf.len() as int),
        contents.skip(n),
        if done + n == buf.len() || write_ends_closed {
            PipeProgress::Done((done + n) as usize)
        } else {
            PipeProgress::Wait((done + n) as usize)
        },
    )
}

/// One write step of `buf`, of which `done` bytes are already written, on a
/// ring buffer holding `contents`: what the ring then holds, and the
/// progress.
pub open spec fn write_step(contents: Seq<u8>, buf: Seq<u8>, done: int) -> (Seq<u8>, PipeProgress) {
    let n = step_count(RING_BUFFER_SIZE - contents.len(), buf.len() - done);
    (
        contents + buf.subrange(done, done + n),
        if done + n == buf.len() {
            PipeProgress::Done(buf.len() as usize)
        } else {
            PipeProgress::Wait((done + n) as usize)
        },
    )
}

impl Pipe {
    /// Whether this end may be read.
    pub closed spec fn is_readable(&self) -> bool {
        self.readable
    }

    /// Whether this end may be written.
    pub closed spec fn is_writable(&self) -> bool {
        self.writable
    }

    /// Create the read end of a pipe.
    pub fn read_end_with_buffer() -> (p: Self)
        ensures
            p.is_readable(),
            !p.is_writable(),
    {
        Self { readable: true, writable: false }
    }

    /// Create the write end of a pipe.
    pub fn write_end_with_buffer() -> (p: Self)
        ensures
            !p.is_readable(),
            p.is_writable(),
    {
        Self { readable: false, writable: true }
    }

    /// Whether this end may be read.
    pub fn readable(&self) -> (r: bool)
        ensures
            r == self.is_readable(),
    {
        self.readable
    }

    /// Whether this end may be written.
    pub fn writable(&self) -> (r: bool)
        ensures
            r == self.is_writable(),
    {
        self.writable
    }

    /// Read FIFO bytes into `buf[done..]`, where `done` bytes of the request
    /// have already been read. Moves as many bytes as are buffered and still
    /// requested. The request is done when `buf` is full, or when the buffer
    /// is then empty and every write end is closed (end of file); otherwise the
    /// caller yields and calls again with the returned progress.
    pub fn read(
        &self,
        ring: &mut PipeRingBuffer,
        buf: &mut Vec<u8>,
        done: usize,
        write_ends_closed: bool,
    ) -> (r: PipeProgress)
        requires
            self.is_readable(),
            old(ring).wf(),
            done <= old(buf).len(),
        ensures
            final(ring).wf(),
            final(ring).write_end_registered() == old(ring).write_end_registered(),
            final(ring).write_ends() == old(ring).write_ends(),
            (final(buf)@, final(ring).contents(), r) == read_step(
                old(ring).contents(),
                old(buf)@,
                done as int,
                write_ends_closed,
            ),
    {
        let ghost old_buf = buf@;
        let ghost old_ring = ring.contents();
        let available = ring.available_read();
        let remaining = buf.len() - done;
        let n = if available < remaining { available } else { remaining };
        let mut i: usize = 0;
        while i < n
            invariant
                i <= n,
                n == step_count(old_ring.len() as int, old_buf.len() - done),
                done + n <= old_buf.len(),
                ring.wf(),
                ring.write_end_registered() == old(ring).write_end_registered(),
                ring.write_ends() == old(ring).write_ends(),
                ring.contents() == old_ring.skip(i as int),
                buf@.len() == old_buf.len(),
                buf.len() == old_buf.len(),
                buf@ == old_buf.subrange(0, done as int) + old_ring.take(i as int)
                    + old_buf.subrange(done + i, old_buf.len() as int),
            decreases n - i,
        {
            let b = ring.read_byte();
            buf.set(done + i, b);
            assert(old_ring.skip(i as int).drop_first() =~= old_ring.skip(i + 1));
            assert(buf@ =~= old_buf.subrange(0, done as int) + old_ring.take(i + 1)
                + old_buf.subrange(done + i + 1, old_buf.len() as int));
            i = i + 1;
        }
        if done + n == buf.len() || write_ends_closed {
            PipeProgress::Done(done + n)
        } else {
            PipeProgress::Wait(done + n)
        }
    }

    /// Write `buf[done..]` into the ring buffer, where `done` bytes of the
    /// request have already been written. Writes only into free capacity; the
    /// request is done when all of `buf` has been written, otherwise the caller
    /// yields until a reader makes room and calls again with the progress.
    pub fn write(&self, ring: &mut PipeRingBuffer, buf: &Vec<u8>, done: usize) -> (r: PipeProgress)
        requires
            self.is_writable(),
            old(ring).wf(),
            done <= buf.len(),
        ensures
            final(ring).wf(),
            final(ring).write_end_registered() == old(ring).write_end_registered(),
            final(ring).write_ends() == old(ring).write_ends(),
            (final(ring).contents(), r) == write_step(old(ring).contents(), buf@, done as int),
    {
        let ghost old_ring = ring.contents();
        let available = ring.available_write();
        let remaining = buf.len() - done;
        let n = if available < remaining { available } else { remaining };
        let mut i: usize = 0;
        while i < n
            invariant
                i <= n,
                n + old_ring.len() <= RING_BUFFER_SIZE,
                done + n <= buf.len(),
                ring.wf(),
                ring.write_end_registered() == old(ring).write_end_registered(),
                ring.write_ends() == old(ring).write_ends(),
                ring.contents() == old_ring + buf@.subrange(done as int, done + i),
            decreases n - i,
        {
            ring.write_byte(buf[done + i]);
            assert(old_ring + buf@.subrange(done as int, done + i + 1) =~= (old_ring
                + buf@.subrange(done as int, done + i)).push(buf@[done + i]));
            i = i + 1;
        }
        if done + n == buf.len() {
            PipeProgress::Done(buf.len())
        } else {
            PipeProgress::Wait(done + n)
        }
    }
}

/// Create an empty pipe: its read end, its write end, and the ring buffer that
/// both share, with the write end registered.
pub fn make_pipe() -> (r: (Pipe, Pipe, PipeRingBuffer))
    ensures
        r.0.is_readable() && !r.0.is_writable(),
        !r.1.is_readable() && r.1.is_writable(),
        r.2.wf(),
        r.2.contents() == Seq::<u8>::empty(),
        r.2.write_end_registered(),
        r.2.write_ends() == 1,
{
    let mut buffer = PipeRingBuffer::new();
    let read_end = Pipe::read_end_with_buffer();
    let write_end = Pipe::write_end_with_buffer();
    buffer.set_write_end();
    (read_end, write_end, buffer)
}

} // verus!
