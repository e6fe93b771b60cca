//! Files as the kernel sees them: the standard streams, pipe ends and opened inodes,
//! and the entries of a process's descriptor table.
use vstd::prelude::*;
use crate::page_table::{PhysMem, PhysSlice, UserBuffer, total_len};
use vstd::string::StrSliceExecFns;

verus! {

/// What every open file tells about itself.
pub trait File {
    /// Whether the file can be read.
    fn readable(&self) -> bool;

    /// Whether the file can be written.
    fn writeable(&self) -> bool;
}

/// The console input.
#[derive(Clone, Copy, Debug, PartialEq, Eq, Structural)]
pub struct Stdin;

/// The console output; standard error is the same stream.
#[derive(Clone, Copy, Debug, PartialEq, Eq, Structural)]
pub struct Stdout;

impl File for Stdin {
    /// The console input can be read.
    fn readable(&self) -> (r: bool)
        ensures
            r,
    {
        true
    }

    /// The console input cannot be written.
    fn writeable(&self) -> (r: bool)
        ensures
            !r,
    {
        false
    }
}

impl File for Stdout {
    /// The console output cannot be read.
    fn readable(&self) -> (r: bool)
        ensures
            !r,
    {
        false
    }

    /// The console output can be written.
    fn writeable(&self) -> (r: bool)
        ensures
            r,
    {
        true
    }
}

/// An entry of a descriptor table: which open file it names. Entries that name the
/// same inode or pipe number share that open file.
#[derive(Clone, Copy, Debug, PartialEq, Eq, Structural)]
pub enum FileDesc {
    /// The console input.
    Stdin,
    /// The console output.
    Stdout,
    /// The console error output.
    Stderr,
    /// Opened inode number `id`, with the access it was opened for.
    Inode { id: usize, readable: bool, writeable: bool },
    /// The read end of pipe number `0`.
    PipeRead(usize),
    /// The write end of pipe number `0`.
    PipeWrite(usize),
}

impl FileDesc {
    /// Whether the named file can be read.
    pub open spec fn can_read(self) -> bool {
        match self {
            FileDesc::Stdin => true,
            FileDesc::Stdout => false,
            FileDesc::Stderr => false,
            FileDesc::Inode { id, readable, writeable } => readable,
            FileDesc::PipeRead(_) => true,
            FileDesc::PipeWrite(_) => false,
        }
    }

    /// Whether the named file can be written.
    pub open spec fn can_write(self) -> bool {
        match self {
            FileDesc::Stdin => false,
            FileDesc::Stdout => true,
            FileDesc::Stderr => true,
            FileDesc::Inode { id, readable, writeable } => writeable,
            FileDesc::PipeRead(_) => false,
            FileDesc::PipeWrite(_) => true,
        }
    }
}

impl File for FileDesc {
    /// Whether the named file can be read.
    fn readable(&self) -> (r: bool)
        ensures
            r == self.can_read(),
    {
        match self {
            FileDesc::Stdin => Stdin.readable(),
            FileDesc::Stdout => Stdout.readable(),
            FileDesc::Stderr => Stdout.readable(),
            FileDesc::Inode { id, readable, writeable } => *readable,
            FileDesc::PipeRead(_) => true,
            FileDesc::PipeWrite(_) => false,
        }
    }

    /// Whether the named file can be written.
    fn writeable(&self) -> (r: bool)
        ensures
            r == self.can_write(),
    {
        match self {
            FileDesc::Stdin => Stdin.writeable(),
            FileDesc::Stdout => Stdout.writeable(),
            FileDesc::Stderr => Stdout.writeable(),
            FileDesc::Inode { id, readable, writeable } => *writeable,
            FileDesc::PipeRead(_) => false,
            FileDesc::PipeWrite(_) => true,
        }
    }
}

/// Open for reading only.
pub const O_RDONLY: u32 = 0;
/// Open for writing only.
pub const O_WRONLY: u32 = 1;
/// Open for reading and writing.
pub const O_RDWR: u32 = 2;
/// Create the file, or empty it if it exists.
pub const O_CREATE: u32 = 512;
/// Empty the file.
pub const O_TRUNC: u32 = 1024;
/// Every known open flag.
pub const O_ALL: u32 = 1539;

/// The flags of an open call.
#[derive(Clone, Copy, Debug, PartialEq, Eq, Structural)]
pub struct OpenFlags {
    /// The raw bits.
    pub bits: u32,
}

impl OpenFlags {
    /// The flags named by `bits`, or `None` when an unknown bit is set.
    pub fn from_bits(bits: u32) -> (r: Option<OpenFlags>)
        ensures
            r == if bits & !O_ALL == 0 {
                Some(OpenFlags { bits })
            } else {
                None
            },
    {
        if bits & !O_ALL == 0 {
            Some(OpenFlags { bits })
        } else {
            None
        }
    }

    /// Whether every flag of `other` is set.
    pub fn contains(&self, other: u32) -> (r: bool)
        ensures
            r == (self.bits & other == other),
    {
        self.bits & other == other
    }

    /// Whether no flag is set.
    pub fn is_empty(&self) -> (r: bool)
        ensures
            r == (self.bits == 0),
    {
        self.bits == 0
    }

    /// The access the flags ask for, `(readable, writable)`: read only when no flag is
    /// set, write only with `WRONLY`, both otherwise.
    pub fn read_write(&self) -> (r: (bool, bool))
        ensures
            r == if self.bits == 0 {
                (true, false)
            } else if self.bits & O_WRONLY == O_WRONLY {
                (false, true)
            } else {
                (true, true)
            },
    {
        if self.is_empty() {
            (true, false)
        } else if self.contains(O_WRONLY) {
            (false, true)
        } else {
            (true, true)
        }
    }
}

/// A file of the root directory: its name and its bytes.
pub struct DirEntry {
    /// The file name.
    pub name: String,
    /// The contents.
    pub data: Vec<u8>,
}

/// The root directory of the file system: its files in the order they were created.
pub struct RootInode {
    /// The files.
    pub entries: Vec<DirEntry>,
}

/// `data` with `bytes` written from position `off` on: bytes past the end extend it,
/// and a gap before `off` reads as zeros.
pub open spec fn spliced(data: Seq<u8>, off: int, bytes: Seq<u8>) -> Seq<u8> {
    let end = off + bytes.len();
    Seq::new(
        if end > data.len() { end as nat } else { data.len() },
        |i: int| if off <= i < end { bytes[i - off] } else if i < data.len() { data[i] } else { 0u8 },
    )
}

/// The bytes that `data` holds from position `off` on.
pub open spec fn tail_from(data: Seq<u8>, off: int) -> Seq<u8> {
    if off < data.len() { data.subrange(off, data.len() as int) } else { Seq::empty() }
}

impl RootInode {
    /// The file names, in order.
    pub open spec fn names(&self) -> Seq<Seq<char>> {
        self.entries@.map_values(|e: DirEntry| e.name@)
    }

    /// No two files share a name.
    pub open spec fn wf(&self) -> bool {
        forall|i: int, j: int| 0 <= i < j < self.entries@.len() ==> #[trigger] self.entries@[i].name@
            != #[trigger] self.entries@[j].name@
    }

    /// The contents of file `i`.
    pub open spec fn content(&self, i: int) -> Seq<u8> {
        self.entries@[i].data@
    }

    /// The index of the file named `name`, if there is one.
    pub open spec fn lookup(&self, name: Seq<char>) -> Option<int> {
        if exists|i: int| 0 <= i < self.entries@.len() && #[trigger] self.entries@[i].name@ == name {
            Some(choose|i: int| 0 <= i < self.entries@.len() && #[trigger] self.entries@[i].name@ == name)
        } else {
            None
        }
    }

    /// An empty directory.
    pub fn new() -> (r: RootInode)
        ensures
            r.wf(),
            r.entries@.len() == 0,
    {
        RootInode { entries: Vec::new() }
    }

    /// The index of the file named `name`, if there is one.
    pub fn find(&self, name: &String) -> (r: Option<usize>)
        requires
            self.wf(),
        ensures
            r == match self.lookup(name@) {
                Some(i) => Some(i as usize),
                None => None::<usize>,
            },
            r matches Some(i) ==> i < self.entries@.len() && self.entries@[i as int].name@ == name@ && self.lookup(name@)
                == Some(i as int),
    {
        let mut i: usize = 0;
        while i < self.entries.len()
            invariant
                self.wf(),
                0 <= i <= self.entries@.len(),
                forall|j: int| 0 <= j < i ==> #[trigger] self.entries@[j].name@ != name@,
            decreases self.entries@.len() - i,
        {
            if self.entries[i].name == *name {
                proof {
                    assert(self.entries@[i as int].name@ == name@);
                    let c = choose|k: int| 0 <= k < self.entries@.len() && #[trigger] self.entries@[k].name@ == name@;
                    if c != i {
                        if c < i {
                            assert(self.entries@[c].name@ != name@);
                        } else {
                            assert(self.entries@[i as int].name@ != self.entries@[c].name@);
                        }
                    }
                }
                return Some(i);
            }
            i = i + 1;
        }
        None
    }

    /// Create an empty file named `name`: its index, or `None` when the name is taken.
    pub fn create(&mut self, name: &String) -> (r: Option<usize>)
        requires
            old(self).wf(),
        ensures
            final(self).wf(),
            old(self).lookup(name@) is Some ==> r.is_none() && final(self).entries@ == old(self).entries@,
            old(self).lookup(name@) is None ==> {
                &&& r matches Some(n) && n == old(self).entries@.len()
                &&& final(self).entries@.len() == old(self).entries@.len() + 1
                &&& forall|j: int| 0 <= j < old(self).entries@.len() ==> #[trigger] final(self).entries@[j] == old(self).entries@[j]
                &&& final(self).entries@.last().name@ == name@
                &&& final(self).entries@.last().data@.len() == 0
            },
    {
        if self.find(name).is_some() {
            return None;
        }
        let n = self.entries.len();
        self.entries.push(DirEntry { name: name.clone(), data: Vec::new() });
        proof {
            assert forall|i: int, j: int| 0 <= i < j < self.entries@.len() implies #[trigger] self.entries@[i].name@
                != #[trigger] self.entries@[j].name@ by {
                if j == n {
                    assert(old(self).entries@[i].name@ != name@);
                }
            }
        }
        Some(n)
    }

    /// Empty file `i`.
    pub fn clear(&mut self, i: usize)
        requires
            old(self).wf(),
            i < old(self).entries@.len(),
        ensures
            final(self).wf(),
            final(self).entries@.len() == old(self).entries@.len(),
            forall|j: int| 0 <= j < old(self).entries@.len() && j != i ==> #[trigger] final(self).entries@[j] == old(self).entries@[j],
            final(self).entries@[i as int].name@ == old(self).entries@[i as int].name@,
            final(self).content(i as int).len() == 0,
    {
        let mut e = self.entries.remove(i);
        e.data = Vec::new();
        self.entries.insert(i, e);
        proof {
            assert forall|a: int, b: int| 0 <= a < b < self.entries@.len() implies #[trigger] self.entries@[a].name@
                != #[trigger] self.entries@[b].name@ by {
                assert(self.entries@[a].name@ == old(self).entries@[a].name@);
                assert(self.entries@[b].name@ == old(self).entries@[b].name@);
            }
        }
    }

    /// Up to `len` bytes of file `i` from position `offset` on.
    pub fn read_at(&self, i: usize, offset: usize, len: usize) -> (r: Vec<u8>)
        requires
            i < self.entries@.len(),
        ensures
            r@ == tail_from(self.content(i as int), offset as int).take(
                if len < tail_from(self.content(i as int), offset as int).len() { len as int } else {
                    tail_from(self.content(i as int), offset as int).len() as int
                },
            ),
    {
        let data = &self.entries[i].data;
        let dlen = data.len();
        let mut r: Vec<u8> = Vec::new();
        if offset >= dlen {
            assert(r@ =~= Seq::<u8>::empty().take(0));
            return r;
        }
        let n = if len < dlen - offset { len } else { dlen - offset };
        let ghost t = tail_from(data@, offset as int);
        let mut k: usize = 0;
        while k < n
            invariant
                0 <= k <= n,
                offset < data@.len(),
                n <= data@.len() - offset,
                offset + n <= data@.len(),
                dlen == data@.len(),
                t == data@.subrange(offset as int, data@.len() as int),
                r@ == t.take(k as int),
            decreases n - k,
        {
            r.push(data[offset + k]);
            proof {
                assert(r@ =~= t.take(k as int + 1));
            }
            k = k + 1;
        }
        r
    }

    /// Write `bytes` into file `i` from position `offset` on; the number of bytes written.
    pub fn write_at(&mut self, i: usize, offset: usize, bytes: &Vec<u8>) -> (r: usize)
        requires
            old(self).wf(),
            i < old(self).entries@.len(),
            offset + bytes@.len() <= usize::MAX,
        ensures
            final(self).wf(),
            r == bytes@.len(),
            final(self).entries@.len() == old(self).entries@.len(),
            forall|j: int| 0 <= j < old(self).entries@.len() && j != i ==> #[trigger] final(self).entries@[j] == old(self).entries@[j],
            final(self).entries@[i as int].name@ == old(self).entries@[i as int].name@,
            final(self).content(i as int) == spliced(old(self).content(i as int), offset as int, bytes@),
    {
        let mut e = self.entries.remove(i);
        let ghost d0 = e.data@;
        while e.data.len() < offset
            invariant
                i < old(self).entries@.len(),
                self.entries@ == old(self).entries@.remove(i as int),
                e.name@ == old(self).entries@[i as int].name@,
                d0.len() <= e.data@.len() <= if offset > d0.len() { offset as int } else { d0.len() as int },
                forall|x: int| 0 <= x < d0.len() ==> #[trigger] e.data@[x] == d0[x],
                forall|x: int| d0.len() <= x < e.data@.len() ==> #[trigger] e.data@[x] == 0u8,
            decreases offset - e.data@.len(),
        {
            e.data.push(0);
        }
        let ghost d1 = e.data@;
        let mut k: usize = 0;
        while k < bytes.len()
            invariant
                i < old(self).entries@.len(),
                self.entries@ == old(self).entries@.remove(i as int),
                e.name@ == old(self).entries@[i as int].name@,
                0 <= k <= bytes@.len(),
                offset + bytes@.len() <= usize::MAX,
                d1.len() >= offset,
                e.data@.len() == if offset + k > d1.len() { offset + k } else { d1.len() as int },
                forall|x: int| 0 <= x < e.data@.len() ==> #[trigger] e.data@[x] == if offset <= x < offset + k {
                    bytes@[x - offset]
                } else {
                    d1[x]
                },
            decreases bytes@.len() - k,
        {
            if offset + k < e.data.len() {
                e.data.set(offset + k, bytes[k]);
            } else {
                e.data.push(bytes[k]);
            }
            k = k + 1;
        }
        proof {
            assert(e.data@ =~= spliced(d0, offset as int, bytes@));
        }
        self.entries.insert(i, e);
        proof {
            assert forall|a: int, b: int| 0 <= a < b < self.entries@.len() implies #[trigger] self.entries@[a].name@
                != #[trigger] self.entries@[b].name@ by {
                assert(self.entries@[a].name@ == old(self).entries@[a].name@);
                assert(self.entries@[b].name@ == old(self).entries@[b].name@);
            }
        }
        bytes.len()
    }

    /// Remove the file named `name`: whether there was one.
    pub fn unlink(&mut self, name: &String) -> (r: bool)
        requires
            old(self).wf(),
        ensures
            final(self).wf(),
            r == old(self).lookup(name@) is Some,
            match old(self).lookup(name@) {
                Some(i) => final(self).entries@ == old(self).entries@.remove(i),
                None => final(self).entries@ == old(self).entries@,
            },
    {
        match self.find(name) {
            Some(i) => {
                self.entries.remove(i);
                proof {
                    assert forall|a: int, b: int| 0 <= a < b < self.entries@.len() implies #[trigger] self.entries@[a].name@
                        != #[trigger] self.entries@[b].name@ by {
                        let oa = if a < i { a } else { a + 1 };
                        let ob = if b < i { b } else { b + 1 };
                        assert(self.entries@[a] == old(self).entries@[oa]);
                        assert(self.entries@[b] == old(self).entries@[ob]);
                    }
                }
                true
            },
            None => false,
        }
    }
}

/// The bytes of piece `p` of physical memory.
pub open spec fn piece_bytes(mem: &PhysMem, p: PhysSlice) -> Seq<u8> {
    Seq::new((p.end - p.start) as nat, |k: int| mem.byte(p.ppn.0 * 4096 + p.start + k))
}

/// The bytes of a sequence of pieces, in order.
pub open spec fn buffer_bytes(mem: &PhysMem, s: Seq<PhysSlice>) -> Seq<u8>
    decreases s.len(),
{
    if s.len() == 0 {
        Seq::empty()
    } else {
        buffer_bytes(mem, s.drop_last()) + piece_bytes(mem, s.last())
    }
}

/// Pieces that each lie inside one page, start to end.
pub open spec fn pieces_ok(s: Seq<PhysSlice>) -> bool {
    forall|i: int| 0 <= i < s.len() ==> (#[trigger] s[i]).start <= s[i].end <= 4096
}

/// Pieces that each lie inside one page of handed-out memory.
pub open spec fn pieces_in(mem: &PhysMem, s: Seq<PhysSlice>) -> bool {
    &&& pieces_ok(s)
    &&& forall|i: int| 0 <= i < s.len() ==> (#[trigger] s[i]).ppn.0 * 4096 + s[i].end <= mem.nframes() * 4096
}

/// How many bytes a read into the pieces `s` takes from `avail` bytes: piece after piece
/// as much as fits, stopping at the first piece that gets nothing.
pub open spec fn read_count(s: Seq<PhysSlice>, avail: int) -> int
    decreases s.len(),
{
    if s.len() == 0 {
        0
    } else {
        let k = if s[0].end - s[0].start < avail { s[0].end - s[0].start } else { avail };
        if k <= 0 {
            0
        } else {
            k + read_count(s.drop_first(), avail - k)
        }
    }
}

proof fn lemma_read_count_bound(s: Seq<PhysSlice>, avail: int)
    requires
        avail >= 0,
        pieces_ok(s),
    ensures
        0 <= read_count(s, avail) <= avail,
    decreases s.len(),
{
    if s.len() > 0 {
        let k = if s[0].end - s[0].start < avail { s[0].end - s[0].start } else { avail };
        if k > 0 {
            assert(pieces_ok(s.drop_first())) by {
                assert forall|i: int| 0 <= i < s.drop_first().len() implies (#[trigger] s.drop_first()[i]).start
                    <= s.drop_first()[i].end <= 4096 by {
                    assert(s.drop_first()[i] == s[i + 1]);
                }
            }
            lemma_read_count_bound(s.drop_first(), avail - k);
        }
    }
}

proof fn lemma_spliced_concat(d: Seq<u8>, o: int, a: Seq<u8>, b: Seq<u8>)
    requires
        0 <= o,
    ensures
        spliced(spliced(d, o, a), o + a.len(), b) == spliced(d, o, a + b),
{
    assert(spliced(spliced(d, o, a), o + a.len(), b) =~= spliced(d, o, a + b));
}

/// A file opened through the file system: file `inode` of the root directory, the
/// access it was opened for, and the position of the next read or write.
pub struct OSInode {
    /// Whether the file was opened for reading.
    pub readable: bool,
    /// Whether the file was opened for writing.
    pub writeable: bool,
    /// The position of the next read or write.
    pub offset: usize,
    /// The file, as an index into the root directory.
    pub inode: usize,
}

impl OSInode {
    /// Whether the file was opened for reading.
    pub open spec fn can_read(&self) -> bool {
        self.readable
    }

    /// Whether the file was opened for writing.
    pub open spec fn can_write(&self) -> bool {
        self.writeable
    }

    /// File `inode`, opened with the given access, at position zero.
    pub fn new(readable: bool, writeable: bool, inode: usize) -> (r: OSInode)
        ensures
            r.can_read() == readable,
            r.can_write() == writeable,
            r.offset == 0,
            r.inode == inode,
    {
        OSInode { readable, writeable, offset: 0, inode }
    }

    /// Everything from the current position to the end of the file; the position moves
    /// to the end.
    pub fn read_all(&mut self, root: &RootInode) -> (r: Vec<u8>)
        requires
            old(self).inode < root.entries@.len(),
        ensures
            r@ == tail_from(root.content(old(self).inode as int), old(self).offset as int),
            final(self).offset == if old(self).offset < root.content(old(self).inode as int).len() {
                root.content(old(self).inode as int).len() as usize
            } else {
                old(self).offset
            },
            final(self).inode == old(self).inode,
            final(self).can_read() == old(self).can_read(),
            final(self).can_write() == old(self).can_write(),
    {
        let ghost c = root.content(self.inode as int);
        let ghost off0 = self.offset;
        let dlen = root.entries[self.inode].data.len();
        let mut v: Vec<u8> = Vec::new();
        loop
            invariant
                dlen == c.len(),
                self.inode == old(self).inode,
                self.readable == old(self).readable,
                self.writeable == old(self).writeable,
                self.inode < root.entries@.len(),
                c == root.content(self.inode as int),
                off0 == old(self).offset,
                off0 <= self.offset,
                off0 < self.offset ==> self.offset <= c.len(),
                v@ == if off0 < self.offset { c.subrange(off0 as int, self.offset as int) } else { Seq::<u8>::empty() },
            decreases (if self.offset < c.len() { c.len() - self.offset } else { 0 }),
        {
            let buffer = root.read_at(self.inode, self.offset, 512);
            if buffer.len() == 0 {
                proof {
                    if off0 < c.len() {
                        assert(self.offset == c.len());
                        assert(v@ =~= tail_from(c, off0 as int));
                    } else {
                        assert(v@ =~= tail_from(c, off0 as int));
                    }
                }
                return v;
            }
            let ghost before = v@;
            let mut k: usize = 0;
            while k < buffer.len()
                invariant
                    0 <= k <= buffer@.len(),
                    v@ == before + buffer@.take(k as int),
                decreases buffer@.len() - k,
            {
                v.push(buffer[k]);
                proof {
                    assert(v@ =~= before + buffer@.take(k as int + 1));
                }
                k = k + 1;
            }
            proof {
                assert(buffer@.take(buffer@.len() as int) =~= buffer@);
                assert(v@ =~= c.subrange(off0 as int, self.offset + buffer@.len()));
            }
            self.offset = self.offset + buffer.len();
        }
    }

    /// Read from the current position into the buffer's pieces in order: the number of
    /// bytes read; the position moves past them.
    pub fn read(&mut self, root: &RootInode, mem: &mut PhysMem, buf: &UserBuffer) -> (r: isize)
        requires
            old(self).inode < root.entries@.len(),
            old(mem).wf(),
            pieces_in(old(mem), buf.buf@),
            root.content(old(self).inode as int).len() <= isize::MAX,
        ensures
            r == read_count(buf.buf@, tail_from(root.content(old(self).inode as int), old(self).offset as int).len() as int),
            pieces_apart(buf.buf@) ==> buffer_bytes(final(mem), buf.buf@).take(r as int) == tail_from(
                root.content(old(self).inode as int),
                old(self).offset as int,
            ).take(r as int),
            final(self).offset == old(self).offset + r,
            final(self).inode == old(self).inode,
            final(self).can_read() == old(self).can_read(),
            final(self).can_write() == old(self).can_write(),
            final(mem).wf(),
            final(mem).nframes() == old(mem).nframes(),
            final(mem).frame_limit() == old(mem).frame_limit(),
            forall|f: int, s: int| #[trigger] final(mem).pte(f, s) == old(mem).pte(f, s),
    {
        let ghost c = root.content(self.inode as int);
        let ghost off0 = self.offset as int;
        let ghost t0 = tail_from(c, off0);
        let ghost avail0 = tail_from(c, self.offset as int).len() as int;
        let ghost s = buf.buf@;
        let mut total: usize = 0;
        let mut i: usize = 0;
        proof {
            lemma_read_count_bound(s, avail0);
            assert(s.skip(0) =~= s);
            assert(s.take(0) =~= Seq::<PhysSlice>::empty());
            assert(buffer_bytes(mem, s.take(0)) =~= Seq::<u8>::empty());
        }
        while i < buf.buf.len()
            invariant
                self.inode == old(self).inode,
                self.readable == old(self).readable,
                self.writeable == old(self).writeable,
                self.inode < root.entries@.len(),
                c == root.content(self.inode as int),
                c.len() <= isize::MAX,
                s == buf.buf@,
                0 <= i <= s.len(),
                off0 == old(self).offset,
                t0 == tail_from(c, off0),
                avail0 == t0.len(),
                self.offset == old(self).offset + total,
                total <= avail0,
                avail0 - total == tail_from(c, self.offset as int).len(),
                total + read_count(s.skip(i as int), avail0 - total) == read_count(s, avail0),
                total == total_len(s.take(i as int)) || total == avail0,
                total <= total_len(s.take(i as int)),
                pieces_apart(s) ==> buffer_bytes(mem, s.take(i as int)).take(total as int) == t0.take(total as int),
                mem.wf(),
                pieces_in(mem, s),
                mem.nframes() == old(mem).nframes(),
                mem.frame_limit() == old(mem).frame_limit(),
                forall|f: int, q: int| #[trigger] mem.pte(f, q) == old(mem).pte(f, q),
            decreases s.len() - i,
        {
            let piece = buf.buf[i];
            proof {
                assert(s[i as int] == piece);
                assert(s.take(i as int + 1).drop_last() =~= s.take(i as int));
                assert(s.take(i as int + 1).last() == piece);
                assert(pieces_ok(s.take(i as int))) by {
                    assert forall|j: int| 0 <= j < s.take(i as int).len() implies (#[trigger] s.take(i as int)[j]).start
                        <= s.take(i as int)[j].end <= 4096 by {
                        assert(s.take(i as int)[j] == s[j]);
                    }
                }
                lemma_buffer_len(mem, s.take(i as int));
                lemma_buffer_split(mem, s, i as int);
            }
            let data = root.read_at(self.inode, self.offset, piece.end - piece.start);
            let ghost avail = avail0 - total;
            proof {
                assert(s.skip(i as int)[0] == piece);
                assert(s.skip(i as int).drop_first() =~= s.skip(i as int + 1));
                assert(data@.len() == if piece.end - piece.start < avail { piece.end - piece.start } else { avail });
                assert(read_count(s.skip(i as int), avail) == if data@.len() <= 0 { 0 } else { data@.len() + read_count(
                    s.skip(i as int + 1),
                    avail - data@.len(),
                ) });
            }
            if data.len() == 0 {
                proof {
                    if pieces_apart(s) {
                        let bi = buffer_bytes(mem, s.take(i as int));
                        assert(buffer_bytes(mem, s).take(total as int) =~= bi.take(total as int));
                    }
                }
                return total as isize;
            }
            proof {
                mem.lemma_frames_bound();
                assert(mem.nframes() * 4096 <= usize::MAX) by (nonlinear_arith)
                    requires
                        mem.nframes() <= mem.frame_limit(),
                        mem.frame_limit() <= usize::MAX / 4096,
                ;
                assert(tail_from(c, self.offset + data@.len()).len() == avail - data@.len());
                assert(total == total_len(s.take(i as int)));
            }
            let base = piece.ppn.0 * 4096 + piece.start;
            let ghost mi = *mem;
            let mut k: usize = 0;
            while k < data.len()
                invariant
                    0 <= k <= data@.len(),
                    data@.len() <= piece.end - piece.start,
                    piece.start <= piece.end,
                    base == piece.ppn.0 * 4096 + piece.start,
                    piece.ppn.0 * 4096 + piece.end <= mem.nframes() * 4096,
                    mem.nframes() * 4096 <= usize::MAX,
                    mem.wf(),
                    pieces_in(mem, s),
                    mem.nframes() == old(mem).nframes(),
                    mem.frame_limit() == old(mem).frame_limit(),
                    forall|f: int, q: int| #[trigger] mem.pte(f, q) == old(mem).pte(f, q),
                    forall|q: int| 0 <= q < k ==> #[trigger] mem.byte(base + q) == data@[q],
                    forall|x: int| !(base <= x < base + k) ==> #[trigger] mem.byte(x) == mi.byte(x),
                decreases data@.len() - k,
            {
                mem.write_byte(base + k, data[k]);
                k = k + 1;
            }
            proof {
                if pieces_apart(s) {
                    let ti = s.take(i as int);
                    let d = data@.len() as int;
                    assert forall|j: int, kk: int| 0 <= j < ti.len() && ti[j].start <= kk < ti[j].end implies #[trigger] piece_cell(
                        &mi,
                        ti[j],
                        kk,
                    ) == piece_cell(mem, ti[j], kk) by {
                        assert(ti[j] == s[j]);
                        assert(s[j].ppn != piece.ppn);
                        assert(s[j].end <= 4096);
                        let pj = s[j].ppn.0 as int;
                        let pi = piece.ppn.0 as int;
                        assert(!(base <= pj * 4096 + kk < base + d)) by (nonlinear_arith)
                            requires
                                pj != pi,
                                0 <= kk < 4096,
                                base == pi * 4096 + piece.start,
                                0 <= piece.start,
                                piece.start + d <= 4096,
                        ;
                    }
                    lemma_buffer_frame(&mi, mem, ti);
                    let bi = buffer_bytes(mem, ti);
                    let pb = piece_bytes(mem, piece);
                    assert(buffer_bytes(mem, s.take(i as int + 1)) == bi + pb);
                    assert(bi.len() == total);
                    let tt = total as int;
                    assert forall|q: int| 0 <= q < tt + d implies #[trigger] (bi + pb).take(tt + d)[q] == t0.take(tt + d)[q] by {
                        if q < tt {
                            assert(bi.take(tt)[q] == t0.take(tt)[q]);
                        } else {
                            assert(pb[q - tt] == mem.byte(base + (q - tt)));
                            assert(data@[q - tt] == tail_from(c, off0 + tt)[q - tt]);
                            assert(off0 + tt < c.len());
                        }
                    }
                    assert((bi + pb).take(tt + d) =~= t0.take(tt + d));
                }
                assert(total_len(s.take(i as int + 1)) == total_len(s.take(i as int)) + (piece.end - piece.start));
            }
            self.offset = self.offset + data.len();
            total = total + data.len();
            i = i + 1;
        }
        proof {
            assert(s.skip(i as int).len() == 0);
            assert(s.take(i as int) =~= s);
        }
        total as isize
    }

    /// Write the bytes of the buffer's pieces, in order, from the current position: the
    /// number of bytes written; the position moves past them.
    pub fn write(&mut self, root: &mut RootInode, mem: &PhysMem, buf: &UserBuffer) -> (r: isize)
        requires
            old(self).inode < old(root).entries@.len(),
            old(root).wf(),
            mem.wf(),
            pieces_in(mem, buf.buf@),
            old(self).offset + total_len(buf.buf@) <= isize::MAX,
        ensures
            r == total_len(buf.buf@),
            final(self).offset == old(self).offset + r,
            final(self).inode == old(self).inode,
            final(self).can_read() == old(self).can_read(),
            final(self).can_write() == old(self).can_write(),
            final(root).wf(),
            final(root).entries@.len() == old(root).entries@.len(),
            forall|j: int| 0 <= j < old(root).entries@.len() && j != old(self).inode ==> #[trigger] final(root).entries@[j]
                == old(root).entries@[j],
            final(root).content(old(self).inode as int) == if buf.buf@.len() == 0 {
                old(root).content(old(self).inode as int)
            } else {
                spliced(old(root).content(old(self).inode as int), old(self).offset as int, buffer_bytes(mem, buf.buf@))
            },
    {
        let ghost c0 = root.content(self.inode as int);
        let ghost s = buf.buf@;
        let ghost off0 = self.offset as int;
        let mut total: usize = 0;
        let mut i: usize = 0;
        proof {
            lemma_buffer_len(mem, s);
            assert(s.take(0) =~= Seq::<PhysSlice>::empty());
        }
        while i < buf.buf.len()
            invariant
                self.inode == old(self).inode,
                self.readable == old(self).readable,
                self.writeable == old(self).writeable,
                root.wf(),
                self.inode < root.entries@.len(),
                root.entries@.len() == old(root).entries@.len(),
                forall|j: int| 0 <= j < old(root).entries@.len() && j != self.inode ==> #[trigger] root.entries@[j]
                    == old(root).entries@[j],
                c0 == old(root).content(self.inode as int),
                s == buf.buf@,
                mem.wf(),
                pieces_in(mem, s),
                0 <= i <= s.len(),
                off0 == old(self).offset,
                off0 + total_len(s) <= isize::MAX,
                total == total_len(s.take(i as int)),
                total <= total_len(s),
                buffer_bytes(mem, s.take(i as int)).len() == total,
                self.offset == off0 + total,
                root.content(self.inode as int) == if i == 0 {
                    c0
                } else {
                    spliced(c0, off0, buffer_bytes(mem, s.take(i as int)))
                },
            decreases s.len() - i,
        {
            let piece = buf.buf[i];
            proof {
                assert(s[i as int] == piece);
                mem.lemma_frames_bound();
                assert(mem.nframes() * 4096 <= usize::MAX) by (nonlinear_arith)
                    requires
                        mem.nframes() <= mem.frame_limit(),
                        mem.frame_limit() <= usize::MAX / 4096,
                ;
            }
            let base = piece.ppn.0 * 4096 + piece.start;
            let n = piece.end - piece.start;
            let mut bytes: Vec<u8> = Vec::new();
            let mut k: usize = 0;
            while k < n
                invariant
                    0 <= k <= n,
                    n == piece.end - piece.start,
                    base == piece.ppn.0 * 4096 + piece.start,
                    piece.ppn.0 * 4096 + piece.end <= mem.nframes() * 4096,
                    mem.nframes() * 4096 <= usize::MAX,
                    piece.start <= piece.end,
                    bytes@ == piece_bytes(mem, piece).take(k as int),
                decreases n - k,
            {
                bytes.push(mem.read_byte(base + k));
                proof {
                    assert(bytes@ =~= piece_bytes(mem, piece).take(k as int + 1));
                }
                k = k + 1;
            }
            proof {
                assert(bytes@ =~= piece_bytes(mem, piece));
                let t = s.take(i as int + 1);
                assert(t.drop_last() =~= s.take(i as int));
                assert(t.last() == piece);
                assert(buffer_bytes(mem, t) == buffer_bytes(mem, s.take(i as int)) + piece_bytes(mem, piece));
                lemma_spliced_concat(c0, off0, buffer_bytes(mem, s.take(i as int)), piece_bytes(mem, piece));
                if i == 0 {
                    assert(buffer_bytes(mem, s.take(0)) =~= Seq::<u8>::empty());
                    assert(Seq::<u8>::empty() + piece_bytes(mem, piece) =~= piece_bytes(mem, piece));
                }
                lemma_total_len_prefix(s, i as int + 1);
                assert(total_len(t) == total_len(s.take(i as int)) + n);
            }
            let written = root.write_at(self.inode, self.offset, &bytes);
            self.offset = self.offset + written;
            total = total + written;
            i = i + 1;
        }
        proof {
            assert(s.take(s.len() as int) =~= s);
        }
        total as isize
    }
}

/// The pieces of `s` sit in distinct frames.
pub open spec fn pieces_apart(s: Seq<PhysSlice>) -> bool {
    forall|i: int, j: int| 0 <= i < s.len() && 0 <= j < s.len() && i != j ==> (#[trigger] s[i]).ppn != (#[trigger] s[j]).ppn
}

/// The bytes of a run of pieces are those of its first `i` pieces followed by those of
/// the rest.
proof fn lemma_buffer_split(mem: &PhysMem, s: Seq<PhysSlice>, i: int)
    requires
        0 <= i <= s.len(),
    ensures
        buffer_bytes(mem, s) == buffer_bytes(mem, s.take(i)) + buffer_bytes(mem, s.skip(i)),
    decreases s.len(),
{
    if i == s.len() {
        assert(s.take(i) =~= s);
        assert(s.skip(i) =~= Seq::<PhysSlice>::empty());
        assert(buffer_bytes(mem, s) + Seq::<u8>::empty() =~= buffer_bytes(mem, s));
    } else {
        let d = s.drop_last();
        lemma_buffer_split(mem, d, i);
        assert(d.take(i) =~= s.take(i));
        assert(s.skip(i).drop_last() =~= d.skip(i));
        assert(s.skip(i).last() == s.last());
        assert(buffer_bytes(mem, s.skip(i)) == buffer_bytes(mem, d.skip(i)) + piece_bytes(mem, s.last()));
        assert((buffer_bytes(mem, s.take(i)) + buffer_bytes(mem, d.skip(i))) + piece_bytes(mem, s.last())
            =~= buffer_bytes(mem, s.take(i)) + (buffer_bytes(mem, d.skip(i)) + piece_bytes(mem, s.last())));
    }
}

/// Byte `k` of the page of piece `p`.
pub open spec fn piece_cell(mem: &PhysMem, p: PhysSlice, k: int) -> u8 {
    mem.byte(p.ppn.0 * 4096 + k)
}

/// Memories that agree on every byte of the pieces of `s` give the same buffer bytes.
proof fn lemma_buffer_frame(m1: &PhysMem, m2: &PhysMem, s: Seq<PhysSlice>)
    requires
        pieces_ok(s),
        forall|i: int, k: int|
            0 <= i < s.len() && s[i].start <= k < s[i].end ==> #[trigger] piece_cell(m1, s[i], k) == piece_cell(m2, s[i], k),
    ensures
        buffer_bytes(m1, s) == buffer_bytes(m2, s),
    decreases s.len(),
{
    if s.len() > 0 {
        let d = s.drop_last();
        assert forall|i: int, k: int| 0 <= i < d.len() && d[i].start <= k < d[i].end implies #[trigger] piece_cell(
            m1,
            d[i],
            k,
        ) == piece_cell(m2, d[i], k) by {
            assert(d[i] == s[i]);
        }
        assert(pieces_ok(d)) by {
            assert forall|j: int| 0 <= j < d.len() implies (#[trigger] d[j]).start <= d[j].end <= 4096 by {
                assert(d[j] == s[j]);
            }
        }
        lemma_buffer_frame(m1, m2, d);
        assert(s[s.len() - 1].start <= s[s.len() - 1].end);
        let p = s.last();
        assert forall|k: int| 0 <= k < p.end - p.start implies #[trigger] piece_bytes(m1, p)[k] == piece_bytes(m2, p)[k] by {
            assert(s[s.len() - 1] == p);
            assert(p.start <= p.start + k < p.end);
            assert(piece_cell(m1, s[s.len() - 1], p.start + k) == piece_cell(m2, s[s.len() - 1], p.start + k));
        }
        assert(piece_bytes(m1, p) =~= piece_bytes(m2, p));
    }
}

proof fn lemma_buffer_len(mem: &PhysMem, s: Seq<PhysSlice>)
    requires
        pieces_ok(s),
    ensures
        buffer_bytes(mem, s).len() == total_len(s),
    decreases s.len(),
{
    if s.len() > 0 {
        assert(pieces_ok(s.drop_last())) by {
            assert forall|i: int| 0 <= i < s.drop_last().len() implies (#[trigger] s.drop_last()[i]).start
                <= s.drop_last()[i].end <= 4096 by {
                assert(s.drop_last()[i] == s[i]);
            }
        }
        lemma_buffer_len(mem, s.drop_last());
    }
}

proof fn lemma_total_len_prefix(s: Seq<PhysSlice>, i: int)
    requires
        pieces_ok(s),
        0 <= i <= s.len(),
    ensures
        total_len(s.take(i)) <= total_len(s),
        0 <= total_len(s.take(i)),
    decreases s.len(),
{
    if i == s.len() {
        assert(s.take(i) =~= s);
        lemma_total_len_nonneg(s);
    } else {
        assert(pieces_ok(s.drop_last())) by {
            assert forall|j: int| 0 <= j < s.drop_last().len() implies (#[trigger] s.drop_last()[j]).start
                <= s.drop_last()[j].end <= 4096 by {
                assert(s.drop_last()[j] == s[j]);
            }
        }
        lemma_total_len_prefix(s.drop_last(), i);
        assert(s.drop_last().take(i) =~= s.take(i));
    }
}

proof fn lemma_total_len_nonneg(s: Seq<PhysSlice>)
    requires
        pieces_ok(s),
    ensures
        0 <= total_len(s),
    decreases s.len(),
{
    if s.len() > 0 {
        assert(pieces_ok(s.drop_last())) by {
            assert forall|j: int| 0 <= j < s.drop_last().len() implies (#[trigger] s.drop_last()[j]).start
                <= s.drop_last()[j].end <= 4096 by {
                assert(s.drop_last()[j] == s[j]);
            }
        }
        lemma_total_len_nonneg(s.drop_last());
    }
}

impl File for OSInode {
    /// Whether the file was opened for reading.
    fn readable(&self) -> (r: bool)
        ensures
            r == self.can_read(),
    {
        self.readable
    }

    /// Whether the file was opened for writing.
    fn writeable(&self) -> (r: bool)
        ensures
            r == self.can_write(),
    {
        self.writeable
    }
}

/// What opening `name` with `flags` does to the root directory and which file it opens:
/// with `CREATE` an existing file is emptied and a missing one created; without it an
/// existing file is emptied under `TRUNC` and a missing one is not opened.
pub open spec fn open_target(root: &RootInode, name: Seq<char>, flags: OpenFlags) -> Option<int> {
    match root.lookup(name) {
        Some(i) => Some(i),
        None => if flags.bits & O_CREATE == O_CREATE { Some(root.entries@.len() as int) } else { None },
    }
}

/// The access that `flags` ask for, `(readable, writable)`.
pub open spec fn open_access(flags: OpenFlags) -> (bool, bool) {
    if flags.bits == 0 {
        (true, false)
    } else if flags.bits & O_WRONLY == O_WRONLY {
        (false, true)
    } else {
        (true, true)
    }
}

/// How opening file `i` named `name` with `flags` changes the root directory from `a`
/// to `b`: a new file is added at the end, an opened file is emptied under `CREATE` or
/// `TRUNC`, and nothing else changes.
pub open spec fn open_effect(a: &RootInode, b: &RootInode, name: Seq<char>, flags: OpenFlags, i: int) -> bool {
    let create = flags.bits & O_CREATE == O_CREATE;
    let trunc = flags.bits & O_TRUNC == O_TRUNC;
    &&& b.entries@.len() == if i < a.entries@.len() { a.entries@.len() } else { a.entries@.len() + 1 }
    &&& forall|j: int| 0 <= j < a.entries@.len() && j != i ==> #[trigger] b.entries@[j] == a.entries@[j]
    &&& b.entries@[i].name@ == name
    &&& b.content(i) =~= if i < a.entries@.len() && !create && !trunc { a.content(i) } else { Seq::<u8>::empty() }
}

/// Opening with `CREATE` or `TRUNC` leaves the opened file empty, whether it existed
/// or not; opening with neither keeps the file's bytes.
pub proof fn lemma_open_contents(a: &RootInode, b: &RootInode, name: Seq<char>, flags: OpenFlags, i: int)
    requires
        open_effect(a, b, name, flags, i),
    ensures
        flags.bits & O_CREATE == O_CREATE ==> b.content(i).len() == 0,
        flags.bits & O_TRUNC == O_TRUNC ==> b.content(i).len() == 0,
        flags.bits & O_CREATE != O_CREATE && flags.bits & O_TRUNC != O_TRUNC && 0 <= i < a.entries@.len() ==> b.content(i)
            == a.content(i),
{
}

/// Open the file `name` of the root directory with `flags`.
pub fn open_file(root: &mut RootInode, name: &String, flags: OpenFlags) -> (r: Option<OSInode>)
    requires
        old(root).wf(),
    ensures
        final(root).wf(),
        match open_target(old(root), name@, flags) {
            Some(i) => {
                &&& r matches Some(f) && f.readable == open_access(flags).0 && f.writeable == open_access(flags).1
                    && f.offset == 0 && f.inode == i
                &&& open_effect(old(root), final(root), name@, flags, i)
            },
            None => r.is_none() && final(root).entries@ == old(root).entries@,
        },
        flags.bits & O_CREATE == O_CREATE ==> (r matches Some(f) && final(root).content(f.inode as int).len() == 0
            && final(root).entries@[f.inode as int].name@ == name@),
        flags.bits & O_TRUNC == O_TRUNC && r is Some ==> final(root).content(r->0.inode as int).len() == 0,
        flags.bits & O_CREATE != O_CREATE && flags.bits & O_TRUNC != O_TRUNC && r is Some ==> final(root).content(
            r->0.inode as int,
        ) == old(root).content(r->0.inode as int),
        flags.bits & O_CREATE != O_CREATE ==> (r is Some <==> old(root).lookup(name@) is Some),
{
    let (readable, writable) = flags.read_write();
    if flags.contains(O_CREATE) {
        match root.find(name) {
            Some(i) => {
                root.clear(i);
                Some(OSInode::new(readable, writable, i))
            },
            None => {
                let i = root.create(name).unwrap();
                Some(OSInode::new(readable, writable, i))
            },
        }
    } else {
        match root.find(name) {
            Some(i) => {
                if flags.contains(O_TRUNC) {
                    root.clear(i);
                }
                Some(OSInode::new(readable, writable, i))
            },
            None => None,
        }
    }
}

/// Remove the file `name` from the root directory: whether it was there.
pub fn unlink_file(root: &mut RootInode, name: &String) -> (r: bool)
    requires
        old(root).wf(),
    ensures
        final(root).wf(),
        r == old(root).lookup(name@) is Some,
        match old(root).lookup(name@) {
            Some(i) => final(root).entries@ == old(root).entries@.remove(i),
            None => final(root).entries@ == old(root).entries@,
        },
{
    root.unlink(name)
}

/// The names of the files of the root directory, in order.
pub fn list_apps(root: &RootInode) -> (r: Vec<String>)
    ensures
        r@.len() == root.entries@.len(),
        forall|i: int| 0 <= i < r@.len() ==> #[trigger] r@[i]@ == root.entries@[i].name@,
{
    let mut v: Vec<String> = Vec::new();
    let mut i: usize = 0;
    while i < root.entries.len()
        invariant
            0 <= i <= root.entries@.len(),
            v@.len() == i,
            forall|j: int| 0 <= j < i ==> #[trigger] v@[j]@ == root.entries@[j].name@,
        decreases root.entries@.len() - i,
    {
        v.push(root.entries[i].name.clone());
        i = i + 1;
    }
    v
}

/// Whether `i` is the first free slot of `s`: the first `None`, or the length when
/// every slot is taken.
pub open spec fn is_first_none<T>(s: Seq<Option<T>>, i: int) -> bool {
    &&& 0 <= i <= s.len()
    &&& i == s.len() || s[i] is None
    &&& forall|j: int| 0 <= j < i ==> (#[trigger] s[j]) is Some
}

/// The first free slot of `v`: the first `None`, or the length when every slot is taken.
pub fn first_free<T>(v: &Vec<Option<T>>) -> (r: usize)
    ensures
        is_first_none(v@, r as int),
{
    let mut i: usize = 0;
    while i < v.len()
        invariant
            0 <= i <= v@.len(),
            forall|j: int| 0 <= j < i ==> (#[trigger] v@[j]) is Some,
        decreases v@.len() - i,
    {
        if v[i].is_none() {
            return i;
        }
        i = i + 1;
    }
    i
}

/// The prefix that marks a test program.
pub open spec fn test_prefix() -> Seq<char> {
    seq!['t', 'e', 's', 't', '_']
}

/// Whether `i` is where the first `.` of `s` stands, or the length when there is none.
pub open spec fn is_first_dot(s: Seq<char>, i: int) -> bool {
    &&& 0 <= i <= s.len()
    &&& i == s.len() || s[i] == '.'
    &&& forall|j: int| 0 <= j < i ==> s[j] != '.'
}

/// Where a program file named `s` is packed into the file system: its name up to its
/// first `.`; a name that then starts with `test_` goes, without that prefix, into the
/// `test` directory (`true`), any other into the root directory (`false`).
pub open spec fn packed_as(s: Seq<char>, r: (bool, Seq<char>)) -> bool {
    exists|i: int|
        #[trigger] is_first_dot(s, i) && {
            let stem = s.take(i);
            if stem.len() >= 5 && stem.take(5) == test_prefix() {
                r == (true, stem.skip(5))
            } else {
                r == (false, stem)
            }
        }
}

/// Where the program file `file_name` is packed: `(true, name)` for the `test`
/// directory, `(false, name)` for the root directory.
pub fn pack_name(file_name: &String) -> (r: (bool, String))
    ensures
        packed_as(file_name@, (r.0, r.1@)),
{
    let s = file_name.as_str();
    let n = s.unicode_len();
    let mut i: usize = 0;
    while i < n
        invariant
            n == s@.len(),
            s@ == file_name@,
            0 <= i <= n,
            forall|j: int| 0 <= j < i ==> s@[j] != '.',
        ensures
            0 <= i <= n,
            i == n || s@[i as int] == '.',
            forall|j: int| 0 <= j < i ==> s@[j] != '.',
        decreases n - i,
    {
        if s.get_char(i) == '.' {
            break;
        }
        i = i + 1;
    }
    let stem = s.substring_char(0, i);
    proof {
        assert(is_first_dot(file_name@, i as int));
        assert(stem@ =~= file_name@.take(i as int));
    }
    if i >= 5 && stem.get_char(0) == 't' && stem.get_char(1) == 'e' && stem.get_char(2) == 's' && stem.get_char(3)
        == 't' && stem.get_char(4) == '_' {
        let rest = stem.substring_char(5, i);
        proof {
            assert(stem@.take(5) =~= test_prefix());
            assert(rest@ =~= stem@.skip(5));
        }
        (true, rest.to_owned())
    } else {
        proof {
            if stem@.len() >= 5 && stem@.take(5) == test_prefix() {
                assert(stem@.take(5)[0] == 't');
                assert(stem@.take(5)[1] == 'e');
                assert(stem@.take(5)[2] == 's');
                assert(stem@.take(5)[3] == 't');
                assert(stem@.take(5)[4] == '_');
            }
        }
        (false, stem.to_owned())
    }
}

} // verus!
