//! Pipes: a bounded ring buffer shared by a read end and a write end.
use vstd::prelude::*;
use std::collections::VecDeque;

verus! {

/// Capacity of a pipe's ring buffer.
pub const RING_BUFFER_SIZE: usize = 32;

/// The buffer of a pipe, the threads waiting on it, and whether its ends are open.
pub struct PipeRingBuffer {
    arr: Vec<u8>,
    head: usize,
    tail: usize,
    count: usize,
    read_wait_queue: VecDeque<usize>,
    write_wait_queue: VecDeque<usize>,
    read_end: Option<bool>,
    write_end: Option<bool>,
}

/// What a read or write on a pipe came to.
#[derive(Clone, Copy, Debug, PartialEq, Eq, Structural)]
pub enum PipeStep {
    /// Finished with this result.
    Done(isize),
    /// The calling thread was queued and must block; the operation resumes when woken.
    Block,
}

impl PipeRingBuffer {
    /// The bytes in the buffer, oldest first.
    pub closed spec fn contents(&self) -> Seq<u8> {
        Seq::new(self.count as nat, |i: int| self.arr@[(self.head + i) % 32])
    }

    /// Threads waiting to read.
    pub closed spec fn readers(&self) -> Seq<usize> {
        self.read_wait_queue@
    }

    /// Threads waiting to write.
    pub closed spec fn writers(&self) -> Seq<usize> {
        self.write_wait_queue@
    }

    /// Whether the read end was set and has been closed since, or was never set.
    pub closed spec fn read_closed(&self) -> bool {
        self.read_end != Some(true)
    }

    /// Whether the write end was set and has been closed since, or was never set.
    pub closed spec fn write_closed(&self) -> bool {
        self.write_end != Some(true)
    }

    /// The ring-buffer bookkeeping is consistent.
    pub closed spec fn wf(&self) -> bool {
        &&& self.arr@.len() == 32
        &&& self.head < 32
        &&& self.tail < 32
        &&& self.count <= 32
        &&& self.tail == (self.head + self.count) % 32
    }

    /// An empty buffer with no end set.
    pub fn new() -> (r: PipeRingBuffer)
        ensures
            r.wf(),
            r.contents() == Seq::<u8>::empty(),
            r.readers() == Seq::<usize>::empty(),
            r.writers() == Seq::<usize>::empty(),
            r.read_closed(),
            r.write_closed(),
    {
        let mut arr: Vec<u8> = Vec::new();
        let mut i: usize = 0;
        while i < RING_BUFFER_SIZE
            invariant
                i <= 32,
                arr@.len() == i,
            decreases 32 - i,
        {
            arr.push(0);
            i = i + 1;
        }
        let r = PipeRingBuffer {
            arr,
            head: 0,
            tail: 0,
            count: 0,
            read_wait_queue: VecDeque::new(),
            write_wait_queue: VecDeque::new(),
            read_end: None,
            write_end: None,
        };
        assert(r.contents() =~= Seq::<u8>::empty());
        r
    }

    /// Record that the read end is open.
    pub fn set_read_end(&mut self)
        ensures
            final(self).wf() == old(self).wf(),
            final(self).contents() == old(self).contents(),
            final(self).readers() == old(self).readers(),
            final(self).writers() == old(self).writers(),
            !final(self).read_closed(),
            final(self).write_closed() == old(self).write_closed(),
    {
        self.read_end = Some(true);
    }

    /// Record that the write end is open.
    pub fn set_write_end(&mut self)
        ensures
            final(self).wf() == old(self).wf(),
            final(self).contents() == old(self).contents(),
            final(self).readers() == old(self).readers(),
            final(self).writers() == old(self).writers(),
            !final(self).write_closed(),
            final(self).read_closed() == old(self).read_closed(),
    {
        self.write_end = Some(true);
    }

    /// Take the oldest byte.
    pub fn read_byte(&mut self) -> (r: u8)
        requires
            old(self).wf(),
            old(self).contents().len() > 0,
        ensures
            final(self).wf(),
            r == old(self).contents()[0],
            final(self).contents() == old(self).contents().drop_first(),
            final(self).readers() == old(self).readers(),
            final(self).writers() == old(self).writers(),
            final(self).read_closed() == old(self).read_closed(),
            final(self).write_closed() == old(self).write_closed(),
    {
        let byte = self.arr[self.head];
        self.head = (self.head + 1) % RING_BUFFER_SIZE;
        self.count = self.count - 1;
        proof {
            assert forall|i: int| 0 <= i < self.count implies #[trigger] self.contents()[i] == old(self).contents().drop_first()[i] by {
                assert((self.head + i) % 32 == (old(self).head + (i + 1)) % 32);
            }
            assert(self.contents() =~= old(self).contents().drop_first());
        }
        byte
    }

    /// Number of bytes that can be read.
    pub fn available_read(&self) -> (r: usize)
        ensures
            r == self.contents().len(),
    {
        self.count
    }

    /// Append a byte.
    pub fn write_byte(&mut self, byte: u8)
        requires
            old(self).wf(),
            old(self).contents().len() < 32,
        ensures
            final(self).wf(),
            final(self).contents() == old(self).contents().push(byte),
            final(self).readers() == old(self).readers(),
            final(self).writers() == old(self).writers(),
            final(self).read_closed() == old(self).read_closed(),
            final(self).write_closed() == old(self).write_closed(),
    {
        let t = self.tail;
        self.arr.set(t, byte);
        self.tail = (self.tail + 1) % RING_BUFFER_SIZE;
        self.count = self.count + 1;
        proof {
            assert forall|i: int| 0 <= i < self.count implies #[trigger] self.contents()[i] == old(self).contents().push(byte)[i] by {
                if i < old(self).count {
                    assert((self.head + i) % 32 != t as int);
                }
            }
            assert(self.contents() =~= old(self).contents().push(byte));
        }
    }

    /// Number of bytes that can be written.
    pub fn available_write(&self) -> (r: usize)
        requires
            self.wf(),
        ensures
            r == 32 - self.contents().len(),
    {
        RING_BUFFER_SIZE - self.count
    }

    /// Wake every thread of `wait_queue`, first waiter first.
    fn wake_all(wait_queue: &mut VecDeque<usize>) -> (r: Vec<usize>)
        ensures
            r@ == old(wait_queue)@,
            final(wait_queue)@ == Seq::<usize>::empty(),
    {
        let mut woken: Vec<usize> = Vec::new();
        loop
            invariant
                woken@ + wait_queue@ == old(wait_queue)@,
            ensures
                woken@ == old(wait_queue)@,
                wait_queue@ == Seq::<usize>::empty(),
            decreases wait_queue@.len(),
        {
            let ghost before = wait_queue@;
            match wait_queue.pop_front() {
                Some(task) => {
                    proof {
                        assert(woken@.push(task) + wait_queue@ =~= woken@ + before);
                    }
                    woken.push(task);
                },
                None => {
                    assert(woken@ + wait_queue@ =~= woken@);
                    break;
                },
            }
        }
        woken
    }

    /// Wake the threads waiting to read.
    pub fn wake_one_reader(&mut self) -> (r: Vec<usize>)
        ensures
            r@ == old(self).readers(),
            final(self).readers() == Seq::<usize>::empty(),
            final(self).writers() == old(self).writers(),
            final(self).contents() == old(self).contents(),
            final(self).wf() == old(self).wf(),
            final(self).read_closed() == old(self).read_closed(),
            final(self).write_closed() == old(self).write_closed(),
    {
        Self::wake_all(&mut self.read_wait_queue)
    }

    /// Wake the threads waiting to write.
    pub fn wake_one_writer(&mut self) -> (r: Vec<usize>)
        ensures
            r@ == old(self).writers(),
            final(self).writers() == Seq::<usize>::empty(),
            final(self).readers() == old(self).readers(),
            final(self).contents() == old(self).contents(),
            final(self).wf() == old(self).wf(),
            final(self).read_closed() == old(self).read_closed(),
            final(self).write_closed() == old(self).write_closed(),
    {
        Self::wake_all(&mut self.write_wait_queue)
    }

    /// Wake every thread waiting to read.
    pub fn wake_all_readers(&mut self) -> (r: Vec<usize>)
        ensures
            r@ == old(self).readers(),
            final(self).readers() == Seq::<usize>::empty(),
            final(self).writers() == old(self).writers(),
            final(self).contents() == old(self).contents(),
            final(self).wf() == old(self).wf(),
            final(self).read_closed() == old(self).read_closed(),
            final(self).write_closed() == old(self).write_closed(),
    {
        Self::wake_all(&mut self.read_wait_queue)
    }

    /// Wake every thread waiting to write.
    pub fn wake_all_writers(&mut self) -> (r: Vec<usize>)
        ensures
            r@ == old(self).writers(),
            final(self).writers() == Seq::<usize>::empty(),
            final(self).readers() == old(self).readers(),
            final(self).contents() == old(self).contents(),
            final(self).wf() == old(self).wf(),
            final(self).read_closed() == old(self).read_closed(),
            final(self).write_closed() == old(self).write_closed(),
    {
        Self::wake_all(&mut self.write_wait_queue)
    }

    /// Whether no write end is open.
    pub fn all_write_ends_closed(&self) -> (r: bool)
        ensures
            r == self.write_closed(),
    {
        match self.write_end {
            Some(alive) => !alive,
            None => true,
        }
    }

    /// Whether no read end is open.
    pub fn all_read_ends_closed(&self) -> (r: bool)
        ensures
            r == self.read_closed(),
    {
        match self.read_end {
            Some(alive) => !alive,
            None => true,
        }
    }
}

/// One end of a pipe.
pub struct Pipe {
    readable: bool,
    writeable: bool,
}

impl Pipe {
    /// Whether this is the read end.
    pub closed spec fn is_read_end(&self) -> bool {
        self.readable
    }

    /// Whether this is the write end.
    pub closed spec fn is_write_end(&self) -> bool {
        self.writeable
    }

    /// The read end of a pipe.
    pub fn read_end_with_buffer() -> (r: Pipe)
        ensures
            r.is_read_end() && !r.is_write_end(),
    {
        Pipe { readable: true, writeable: false }
    }

    /// The write end of a pipe.
    pub fn write_end_with_buffer() -> (r: Pipe)
        ensures
            !r.is_read_end() && r.is_write_end(),
    {
        Pipe { readable: false, writeable: true }
    }

    /// Whether the end reads.
    pub fn readable(&self) -> (r: bool)
        ensures
            r == self.is_read_end(),
    {
        self.readable
    }

    /// Whether the end writes.
    pub fn writeable(&self) -> (r: bool)
        ensures
            r == self.is_write_end(),
    {
        self.writeable
    }

    /// Close this end: the buffer notes it and wakes the threads waiting on the other side.
    pub fn close(&self, ring: &mut PipeRingBuffer) -> (r: Vec<usize>)
        ensures
            final(ring).contents() == old(ring).contents(),
            final(ring).wf() == old(ring).wf(),
            self.is_read_end() ==> final(ring).read_closed() && final(ring).writers() == Seq::<usize>::empty(),
            self.is_write_end() ==> final(ring).write_closed() && final(ring).readers() == Seq::<usize>::empty(),
            r@ == (if self.is_read_end() { old(ring).writers() } else { Seq::empty() }) + (if self.is_write_end() {
                old(ring).readers()
            } else {
                Seq::empty()
            }),
    {
        let mut woken: Vec<usize> = Vec::new();
        if self.readable {
            ring.read_end = Some(false);
            let mut w = ring.wake_all_writers();
            woken.append(&mut w);
        }
        if self.writeable {
            ring.write_end = Some(false);
            let mut w = ring.wake_all_readers();
            woken.append(&mut w);
        }
        proof {
            assert(woken@ =~= (if self.is_read_end() { old(ring).writers() } else { Seq::empty() }) + (if self.is_write_end() {
                old(ring).readers()
            } else {
                Seq::empty()
            }));
        }
        woken
    }
}

/// A new pipe: its buffer, read end and write end.
pub fn make_pipe() -> (r: (PipeRingBuffer, Pipe, Pipe))
    ensures
        r.0.wf(),
        r.0.contents() == Seq::<u8>::empty(),
        !r.0.read_closed() && !r.0.write_closed(),
        r.0.readers() == Seq::<usize>::empty() && r.0.writers() == Seq::<usize>::empty(),
        r.1.is_read_end() && !r.1.is_write_end(),
        !r.2.is_read_end() && r.2.is_write_end(),
{
    let mut buffer = PipeRingBuffer::new();
    let read_end = Pipe::read_end_with_buffer();
    let write_end = Pipe::write_end_with_buffer();
    buffer.set_read_end();
    buffer.set_write_end();
    (buffer, read_end, write_end)
}

/// Bytes written and then read come out in the order they went in.
pub proof fn lemma_ring_fifo(c: Seq<u8>, b: u8)
    requires
        c.len() > 0,
    ensures
        c.push(b).drop_first() == c.drop_first().push(b),
        c.push(b)[0] == c[0],
{
    assert(c.push(b).drop_first() =~= c.drop_first().push(b));
}

} // verus!

verus! {

impl Pipe {
    /// Read up to `want` bytes in all into `got` for thread `tid`: take what the buffer holds,
    /// wake the waiting writers, and finish, or queue `tid` as a reader when the buffer is
    /// empty and a write end is still open.
    pub fn read(&self, ring: &mut PipeRingBuffer, tid: usize, want: usize, got: &mut Vec<u8>) -> (r: (PipeStep, Vec<usize>))
        requires
            self.is_read_end(),
            old(ring).wf(),
            old(got)@.len() <= want <= isize::MAX,
        ensures
            final(ring).wf(),
            final(ring).read_closed() == old(ring).read_closed(),
            final(ring).write_closed() == old(ring).write_closed(),
            ({
                let c = old(ring).contents();
                let g0 = old(got)@.len() as int;
                let need = want - g0;
                if c.len() == 0 {
                    &&& final(got)@ == old(got)@
                    &&& final(ring).contents() == c
                    &&& r.1@ == Seq::<usize>::empty()
                    &&& final(ring).writers() == old(ring).writers()
                    &&& if old(ring).write_closed() {
                        r.0 == PipeStep::Done(g0 as isize) && final(ring).readers() == old(ring).readers()
                    } else {
                        r.0 == PipeStep::Block && final(ring).readers() == old(ring).readers().push(tid)
                    }
                } else if c.len() >= need {
                    &&& final(got)@ == old(got)@ + c.take(need)
                    &&& final(ring).contents() == c.skip(need)
                    &&& r.0 == PipeStep::Done(want as isize)
                    &&& r.1@ == old(ring).writers()
                    &&& final(ring).writers() == Seq::<usize>::empty()
                    &&& final(ring).readers() == old(ring).readers()
                } else {
                    &&& final(got)@ == old(got)@ + c
                    &&& final(ring).contents() == Seq::<u8>::empty()
                    &&& r.1@ == old(ring).writers()
                    &&& final(ring).writers() == Seq::<usize>::empty()
                    &&& if old(ring).write_closed() {
                        r.0 == PipeStep::Done((g0 + c.len()) as isize) && final(ring).readers() == old(ring).readers()
                    } else {
                        r.0 == PipeStep::Block && final(ring).readers() == old(ring).readers().push(tid)
                    }
                }
            }),
    {
        let mut woken: Vec<usize> = Vec::new();
        let ghost c = ring.contents();
        let ghost g0 = got@.len() as int;
        let ghost mut first = true;
        loop
            invariant
                ring.wf(),
                got@.len() <= want <= isize::MAX,
                ring.readers() == old(ring).readers(),
                ring.read_closed() == old(ring).read_closed(),
                ring.write_closed() == old(ring).write_closed(),
                c == old(ring).contents(),
                g0 == old(got)@.len(),
                first ==> got@ == old(got)@ && ring.contents() == c && woken@ == Seq::<usize>::empty() && ring.writers()
                    == old(ring).writers(),
                !first ==> {
                    &&& c.len() > 0
                    &&& c.len() < want - g0
                    &&& got@ == old(got)@ + c
                    &&& ring.contents() == Seq::<u8>::empty()
                    &&& woken@ == old(ring).writers()
                    &&& ring.writers() == Seq::<usize>::empty()
                },
            decreases ring.contents().len(), (if first { 1int } else { 0int }),
        {
            let loop_read = ring.available_read();
            if loop_read == 0 {
                if ring.all_write_ends_closed() {
                    return (PipeStep::Done(got.len() as isize), woken);
                }
                ring.read_wait_queue.push_back(tid);
                return (PipeStep::Block, woken);
            }
            let ghost gr = got@;
            let mut k: usize = 0;
            while k < loop_read
                invariant
                    first,
                    ring.wf(),
                    0 <= k <= loop_read,
                    loop_read == c.len(),
                    gr == old(got)@,
                    got@ == gr + c.take(k as int),
                    ring.contents() == c.skip(k as int),
                    g0 + k < want || k == 0,
                    got@.len() <= want <= isize::MAX,
                    g0 == old(got)@.len(),
                    ring.readers() == old(ring).readers(),
                    ring.writers() == old(ring).writers(),
                    ring.read_closed() == old(ring).read_closed(),
                    ring.write_closed() == old(ring).write_closed(),
                    woken@ == Seq::<usize>::empty(),
                    c == old(ring).contents(),
                decreases loop_read - k,
            {
                if got.len() < want {
                    let b = ring.read_byte();
                    got.push(b);
                    proof {
                        assert(c.skip(k as int)[0] == c[k as int]);
                        assert(got@ =~= gr + c.take(k as int + 1));
                        assert(ring.contents() =~= c.skip(k as int + 1));
                    }
                    if got.len() == want {
                        let mut w = ring.wake_one_writer();
                        woken.append(&mut w);
                        return (PipeStep::Done(want as isize), woken);
                    }
                } else {
                    let mut w = ring.wake_one_writer();
                    woken.append(&mut w);
                    proof {
                        assert(c.take(0) =~= Seq::<u8>::empty());
                        assert(got@ =~= old(got)@ + c.take(want - g0));
                    }
                    return (PipeStep::Done(got.len() as isize), woken);
                }
                k = k + 1;
            }
            let mut w = ring.wake_one_writer();
            woken.append(&mut w);
            proof {
                assert(c.take(loop_read as int) =~= c);
                assert(ring.contents() =~= Seq::<u8>::empty());
                first = false;
            }
        }
    }

    /// Write the bytes of `src` from position `sent` on for thread `tid`: fill the buffer,
    /// wake the waiting readers, and finish, or queue `tid` as a writer when the buffer is
    /// full and the read end is still open. `sent` counts the bytes written since the
    /// call began, across the times it blocked.
    pub fn write(&self, ring: &mut PipeRingBuffer, tid: usize, src: &Vec<u8>, sent: &mut usize) -> (r: (PipeStep, Vec<usize>))
        requires
            self.is_write_end(),
            old(ring).wf(),
            *old(sent) <= src@.len() <= isize::MAX,
        ensures
            final(ring).wf(),
            final(ring).read_closed() == old(ring).read_closed(),
            final(ring).write_closed() == old(ring).write_closed(),
            ({
                let c = old(ring).contents();
                let s0 = *old(sent) as int;
                let rest = src@.len() - s0;
                let s1 = *final(sent) as int;
                if old(ring).read_closed() {
                    &&& r.0 == PipeStep::Done(if s0 > 0 { s0 as isize } else { -1isize })
                    &&& s1 == s0
                    &&& final(ring).contents() == c
                    &&& final(ring).readers() == old(ring).readers()
                    &&& final(ring).writers() == old(ring).writers()
                    &&& r.1@ == Seq::<usize>::empty()
                } else if c.len() == 32 {
                    &&& r.0 == PipeStep::Block
                    &&& s1 == s0
                    &&& final(ring).contents() == c
                    &&& final(ring).readers() == old(ring).readers()
                    &&& final(ring).writers() == old(ring).writers().push(tid)
                    &&& r.1@ == Seq::<usize>::empty()
                } else if c.len() + rest <= 32 {
                    &&& r.0 == PipeStep::Done(src@.len() as isize)
                    &&& s1 == src@.len()
                    &&& final(ring).contents() == c + src@.subrange(s0, s1)
                    &&& final(ring).readers() == Seq::<usize>::empty()
                    &&& final(ring).writers() == old(ring).writers()
                    &&& r.1@ == old(ring).readers()
                } else {
                    &&& r.0 == PipeStep::Block
                    &&& s1 == s0 + (32 - c.len())
                    &&& final(ring).contents() == c + src@.subrange(s0, s1)
                    &&& final(ring).readers() == Seq::<usize>::empty()
                    &&& final(ring).writers() == old(ring).writers().push(tid)
                    &&& r.1@ == old(ring).readers()
                }
            }),
    {
        let want = src.len();
        let mut woken: Vec<usize> = Vec::new();
        let ghost c = ring.contents();
        let ghost s0 = *sent;
        let ghost mut first = true;
        loop
            invariant
                ring.wf(),
                want == src@.len() <= isize::MAX,
                s0 == *old(sent),
                s0 <= *sent <= want,
                c == old(ring).contents(),
                ring.contents() == c + src@.subrange(s0 as int, *sent as int),
                ring.read_closed() == old(ring).read_closed(),
                ring.write_closed() == old(ring).write_closed(),
                ring.writers() == old(ring).writers(),
                first ==> *sent == s0 && woken@ == Seq::<usize>::empty() && ring.readers() == old(ring).readers(),
                !first ==> {
                    &&& !ring.read_closed()
                    &&& c.len() < 32
                    &&& c.len() + (want - s0) > 32
                    &&& ring.contents().len() == 32
                    &&& woken@ == old(ring).readers()
                    &&& ring.readers() == Seq::<usize>::empty()
                },
            decreases (if first { 1int } else { 0int }),
        {
            if ring.all_read_ends_closed() {
                return (PipeStep::Done(if *sent > 0 { *sent as isize } else { -1 }), woken);
            }
            let loop_write = ring.available_write();
            if loop_write == 0 {
                ring.write_wait_queue.push_back(tid);
                return (PipeStep::Block, woken);
            }
            let mut k: usize = 0;
            while k < loop_write
                invariant
                    first,
                    ring.wf(),
                    0 <= k <= loop_write,
                    loop_write == 32 - c.len(),
                    want == src@.len() <= isize::MAX,
                    s0 == *old(sent),
                    *sent == s0 + k,
                    *sent < want || k == 0,
                    *sent <= want,
                    c == old(ring).contents(),
                    ring.contents() == c + src@.subrange(s0 as int, *sent as int),
                    ring.read_closed() == old(ring).read_closed(),
                    ring.write_closed() == old(ring).write_closed(),
                    ring.writers() == old(ring).writers(),
                    ring.readers() == old(ring).readers(),
                    !ring.read_closed(),
                    woken@ == Seq::<usize>::empty(),
                decreases loop_write - k,
            {
                if *sent < want {
                    let b = src[*sent];
                    ring.write_byte(b);
                    *sent = *sent + 1;
                    proof {
                        assert(ring.contents() =~= c + src@.subrange(s0 as int, *sent as int));
                    }
                    if *sent == want {
                        let mut w = ring.wake_one_reader();
                        woken.append(&mut w);
                        return (PipeStep::Done(want as isize), woken);
                    }
                } else {
                    let mut w = ring.wake_one_reader();
                    woken.append(&mut w);
                    return (PipeStep::Done(*sent as isize), woken);
                }
                k = k + 1;
            }
            let mut w = ring.wake_one_reader();
            woken.append(&mut w);
            proof {
                first = false;
            }
        }
    }
}

} // verus!
