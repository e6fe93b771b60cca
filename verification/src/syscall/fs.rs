//! Descriptor-table system calls.
use vstd::prelude::*;
use crate::fs::{
    File, FileDesc, is_first_none, OpenFlags, OSInode, RootInode, open_file, open_target, open_effect, open_access, unlink_file,
    O_ALL, read_count, tail_from, pieces_in, buffer_bytes, spliced, pieces_apart,
};
use crate::page_table::{PhysMem, UserBuffer, range_mapped, byte_pieces_ok, total_len, walk};
use crate::pipe::{PipeRingBuffer, make_pipe};
use crate::task::ProcessControlBlock;
use crate::user_mem::{
    cstr_at, token_root, try_translated_str, try_translated_refmut, user_pieces, backed, user_storable, user_pa, le_bytes,
    store_le, lemma_cstr_unique, lemma_pieces_unique, lemma_user_pieces_in,
};

verus! {

/// Close descriptor `fd` of the calling process: `0`, or `-1` when `fd` names no open file.
pub fn sys_close(process: &mut ProcessControlBlock, fd: usize) -> (r: isize)
    ensures
        final(process).pid == old(process).pid,
        ({
            let t = old(process).inner.fd_table@;
            if fd < t.len() && t[fd as int] is Some {
                &&& r == 0
                &&& final(process).inner.fd_table@ == t.update(fd as int, None)
            } else {
                &&& r == -1
                &&& final(process).inner.fd_table@ == t
            }
        }),
        final(process).inner.memory_set == old(process).inner.memory_set,
        final(process).inner.tasks@ == old(process).inner.tasks@,
{
    let inner = process.inner_exclusive_access();
    if fd >= inner.fd_table.len() {
        return -1;
    }
    if inner.fd_table[fd].is_none() {
        return -1;
    }
    inner.fd_table.set(fd, None);
    0
}

/// Give the file of descriptor `fd` a second descriptor, the first free one: that
/// descriptor, or `-1` when `fd` names no open file.
pub fn sys_dup(process: &mut ProcessControlBlock, fd: usize) -> (r: isize)
    requires
        old(process).inner.fd_table@.len() < isize::MAX,
    ensures
        final(process).pid == old(process).pid,
        ({
            let t = old(process).inner.fd_table@;
            if fd < t.len() && t[fd as int] is Some {
                &&& is_first_none(t, r as int)
                &&& final(process).inner.fd_table@ == if r < t.len() {
                    t.update(r as int, t[fd as int])
                } else {
                    t.push(t[fd as int])
                }
            } else {
                &&& r == -1
                &&& final(process).inner.fd_table@ == t
            }
        }),
        final(process).inner.memory_set == old(process).inner.memory_set,
        final(process).inner.tasks@ == old(process).inner.tasks@,
{
    let inner = process.inner_exclusive_access();
    if fd < inner.fd_table.len() {
        if let Some(file) = inner.fd_table[fd] {
            let new_fd = inner.alloc_fd();
            inner.fd_table.set(new_fd, Some(file));
            proof {
                let t = old(process).inner.fd_table@;
                if new_fd < t.len() {
                    assert(inner.fd_table@ =~= t.update(new_fd as int, t[fd as int]));
                } else {
                    assert(inner.fd_table@ =~= t.push(t[fd as int]));
                }
            }
            return new_fd as isize;
        }
    }
    -1
}

/// `t` with slot `i` set to `v`: in place when `i` is a slot of `t`, appended when it is
/// the length.
pub open spec fn set_in<T>(t: Seq<T>, i: int, v: T) -> Seq<T> {
    if i < t.len() { t.update(i, v) } else { t.push(v) }
}

/// What a read or write on a descriptor leaves to do.
pub enum FileIo {
    /// Finished with this result.
    Done(isize),
    /// Console input or output through the buffer.
    Console(UserBuffer),
    /// Pipe number `0` through the buffer.
    Pipe(usize, UserBuffer),
}

/// Every inode entry of a descriptor table names an opened file of `open_files`, which
/// names a file of `root`.
pub open spec fn inodes_ok(t: Seq<Option<FileDesc>>, open_files: Seq<OSInode>, root: &RootInode) -> bool {
    forall|fd: int|
        0 <= fd < t.len() ==> ((#[trigger] t[fd]) matches Some(FileDesc::Inode { id, readable, writeable }) ==> {
            &&& id < open_files.len()
            &&& open_files[id as int].inode < root.entries@.len()
        })
}

/// Open the file whose NUL-terminated name is at user address `path` with the open
/// flags `flags`, in the first free descriptor: that descriptor, or `-1` when the name
/// cannot be read, a flag is unknown, or the file does not exist and is not created.
/// The opened file is appended to `open_files`.
pub fn sys_open(
    process: &mut ProcessControlBlock,
    mem: &PhysMem,
    root: &mut RootInode,
    open_files: &mut Vec<OSInode>,
    path: usize,
    flags: u32,
) -> (r: isize)
    requires
        old(process).inner.memory_set.wf(mem),
        old(root).wf(),
        old(process).inner.fd_table@.len() < isize::MAX,
    ensures
        final(root).wf(),
        final(process).pid == old(process).pid,
        final(process).inner.memory_set == old(process).inner.memory_set,
        final(process).inner.tasks@ == old(process).inner.tasks@,
        ({
            let rt = old(process).inner.memory_set.root();
            let t = old(process).inner.fd_table@;
            match cstr_at(mem, rt, path as int) {
                None => r == -1 && final(process).inner.fd_table@ == t && final(open_files)@ == old(open_files)@
                    && final(root).entries@ == old(root).entries@,
                Some(name) => if flags & !O_ALL != 0 {
                    r == -1 && final(process).inner.fd_table@ == t && final(open_files)@ == old(open_files)@
                        && final(root).entries@ == old(root).entries@
                } else {
                    match open_target(old(root), name, OpenFlags { bits: flags }) {
                        None => r == -1 && final(process).inner.fd_table@ == t && final(open_files)@ == old(open_files)@
                            && final(root).entries@ == old(root).entries@,
                        Some(i) => {
                            let acc = open_access(OpenFlags { bits: flags });
                            let d = FileDesc::Inode { id: #[verifier::truncate] (old(open_files)@.len() as usize), readable: acc.0, writeable: acc.1 };
                            &&& open_effect(old(root), final(root), name, OpenFlags { bits: flags }, i)
                            &&& final(open_files)@ == old(open_files)@.push(
                                OSInode { readable: acc.0, writeable: acc.1, offset: 0, inode: #[verifier::truncate] (i as usize) },
                            )
                            &&& is_first_none(t, r as int)
                            &&& final(process).inner.fd_table@ == if r < t.len() {
                                t.update(r as int, Some(d))
                            } else {
                                t.push(Some(d))
                            }
                        },
                    }
                },
            }
        }),
{
    let token = process.inner.get_user_token();
    proof {
        process.inner.memory_set.lemma_token_root(mem);
    }
    proof {
        assert(token_root(token) == process.inner.memory_set.root());
    }
    let name = match try_translated_str(mem, token, path) {
        Some(name) => name,
        None => {
            proof {
                let rt = process.inner.memory_set.root();
                assert(!exists|n: int| #[trigger] crate::page_table::user_cstr(mem, rt, path as int, n));
            }
            return -1;
        },
    };
    proof {
        let rt = process.inner.memory_set.root();
        let n = choose|n: int| #[trigger] crate::page_table::user_cstr(mem, rt, path as int, n);
        let m = choose|m: int| #[trigger] crate::page_table::user_cstr(mem, rt, path as int, m) && name@ == Seq::new(
            m as nat,
            |j: int| (crate::page_table::user_byte(mem, rt, path as int + j).unwrap() as char),
        );
        lemma_cstr_unique(mem, rt, path as int, n, m);
        assert(cstr_at(mem, rt, path as int) == Some(name@));
    }
    let flags = match OpenFlags::from_bits(flags) {
        Some(f) => f,
        None => {
            return -1;
        },
    };
    match open_file(root, &name, flags) {
        Some(inode) => {
            let id = open_files.len();
            let d = FileDesc::Inode { id, readable: inode.readable, writeable: inode.writeable };
            open_files.push(inode);
            let inner = process.inner_exclusive_access();
            let fd = inner.alloc_fd();
            inner.fd_table.set(fd, Some(d));
            proof {
                let t = old(process).inner.fd_table@;
                if fd < t.len() {
                    assert(inner.fd_table@ =~= t.update(fd as int, Some(d)));
                } else {
                    assert(inner.fd_table@ =~= t.push(Some(d)));
                }
            }
            fd as isize
        },
        None => -1,
    }
}

/// Remove the file whose NUL-terminated name is at user address `path`: `0`, or `-1`
/// when the name cannot be read or no such file exists.
pub fn sys_unlink(process: &ProcessControlBlock, mem: &PhysMem, root: &mut RootInode, path: usize) -> (r: isize)
    requires
        process.inner.memory_set.wf(mem),
        old(root).wf(),
    ensures
        final(root).wf(),
        match cstr_at(mem, process.inner.memory_set.root(), path as int) {
            None => r == -1 && final(root).entries@ == old(root).entries@,
            Some(name) => match old(root).lookup(name) {
                Some(i) => r == 0 && final(root).entries@ == old(root).entries@.remove(i),
                None => r == -1 && final(root).entries@ == old(root).entries@,
            },
        },
{
    let token = process.inner.get_user_token();
    proof {
        process.inner.memory_set.lemma_token_root(mem);
    }
    proof {
        assert(token_root(token) == process.inner.memory_set.root());
    }
    let name = match try_translated_str(mem, token, path) {
        Some(name) => name,
        None => {
            proof {
                let rt = process.inner.memory_set.root();
                assert(!exists|n: int| #[trigger] crate::page_table::user_cstr(mem, rt, path as int, n));
            }
            return -1;
        },
    };
    proof {
        let rt = process.inner.memory_set.root();
        let n = choose|n: int| #[trigger] crate::page_table::user_cstr(mem, rt, path as int, n);
        let m = choose|m: int| #[trigger] crate::page_table::user_cstr(mem, rt, path as int, m) && name@ == Seq::new(
            m as nat,
            |j: int| (crate::page_table::user_byte(mem, rt, path as int + j).unwrap() as char),
        );
        lemma_cstr_unique(mem, rt, path as int, n, m);
        assert(cstr_at(mem, rt, path as int) == Some(name@));
    }
    if unlink_file(root, &name) {
        0
    } else {
        -1
    }
}

/// Whether the user bytes `[buf, buf + len)` of the table rooted at `root` can be
/// turned into a buffer: their end is representable and their pages are mapped.
pub open spec fn buffer_ok(mem: &PhysMem, root: int, buf: usize, len: usize) -> bool {
    buf + len <= usize::MAX - 4095 && range_mapped(mem, root, buf as int, buf + len)
}

/// Read from descriptor `fd` into the `len` user bytes at `buf`. `Done(-1)` when `fd`
/// names no readable file or the bytes are not all mapped. An opened inode is read
/// here: `Done` with the number of bytes read, and its position moves past them. The
/// console input and a pipe's read end are left to the caller with the buffer.
pub fn sys_read(
    process: &ProcessControlBlock,
    mem: &mut PhysMem,
    root: &RootInode,
    open_files: &mut Vec<OSInode>,
    fd: usize,
    buf: usize,
    len: usize,
) -> (r: FileIo)
    requires
        process.inner.memory_set.wf(old(mem)),
        inodes_ok(process.inner.fd_table@, old(open_files)@, root),
        backed(old(mem), process.inner.memory_set.root(), buf as int, len as int),
        forall|i: int| 0 <= i < root.entries@.len() ==> (#[trigger] root.content(i)).len() <= isize::MAX,
    ensures
        process.inner.memory_set.wf(final(mem)),
        final(mem).nframes() == old(mem).nframes(),
        forall|v: int| #[trigger] walk(final(mem), process.inner.memory_set.root(), v) == walk(
            old(mem),
            process.inner.memory_set.root(),
            v,
        ),
        ({
            let t = process.inner.fd_table@;
            let rt = process.inner.memory_set.root();
            let pieces = user_pieces(old(mem), rt, buf as int, len as int);
            if fd >= t.len() || t[fd as int] is None || !t[fd as int]->0.can_read() || !buffer_ok(old(mem), rt, buf, len) {
                r matches FileIo::Done(x) && x == -1 && final(open_files)@ == old(open_files)@ && *final(mem) == *old(mem)
            } else {
                match t[fd as int]->0 {
                    FileDesc::Inode { id, readable, writeable } => {
                        let f = old(open_files)@[id as int];
                        let n = read_count(pieces, tail_from(root.content(f.inode as int), f.offset as int).len() as int);
                        &&& r matches FileIo::Done(x) && x == n
                        &&& pieces_apart(pieces) ==> buffer_bytes(final(mem), pieces).take(n) == tail_from(
                            root.content(f.inode as int),
                            f.offset as int,
                        ).take(n)
                        &&& final(open_files)@ == old(open_files)@.update(
                            id as int,
                            OSInode { offset: (f.offset + n) as usize, ..f },
                        )
                    },
                    FileDesc::PipeRead(p) => {
                        &&& r matches FileIo::Pipe(q, b) && q == p && b.buf@ == pieces
                        &&& final(open_files)@ == old(open_files)@
                        &&& *final(mem) == *old(mem)
                    },
                    _ => {
                        &&& r matches FileIo::Console(b) && b.buf@ == pieces
                        &&& final(open_files)@ == old(open_files)@
                        &&& *final(mem) == *old(mem)
                    },
                }
            }
        }),
{
    let token = process.inner.get_user_token();
    proof {
        process.inner.memory_set.lemma_token_root(mem);
        assert(token_root(token) == process.inner.memory_set.root());
    }
    if fd >= process.inner.fd_table.len() {
        return FileIo::Done(-1);
    }
    let file = match process.inner.fd_table[fd] {
        Some(file) => file,
        None => {
            return FileIo::Done(-1);
        },
    };
    if !file.readable() {
        return FileIo::Done(-1);
    }
    let user_buf = match UserBuffer::try_from_raw_parts(mem, token, buf, len) {
        Some(b) => b,
        None => {
            return FileIo::Done(-1);
        },
    };
    proof {
        lemma_pieces_unique(mem, token_root(token), buf as int, len as int, user_buf.buf@);
    }
    match file {
        FileDesc::Inode { id, readable, writeable } => {
            proof {
                lemma_user_pieces_in(mem, token_root(token), buf as int, len as int);
            }
            let ghost mem0 = *mem;
            let mut f = open_files.remove(id);
            let n = f.read(root, mem, &user_buf);
            open_files.insert(id, f);
            proof {
                assert(open_files@ =~= old(open_files)@.update(
                    id as int,
                    OSInode { offset: (old(open_files)@[id as int].offset + n) as usize, ..old(open_files)@[id as int] },
                ));
                process.inner.memory_set.lemma_wf_bytes(&mem0, mem);
            }
            FileIo::Done(n)
        },
        FileDesc::PipeRead(p) => FileIo::Pipe(p, user_buf),
        _ => FileIo::Console(user_buf),
    }
}

/// Write the `len` user bytes at `buf` to descriptor `fd`. `Done(-1)` when `fd` names no
/// writable file or the bytes are not all mapped. An opened inode is written here:
/// `Done(len)`, the bytes land from its position on and the position moves past them.
/// The console output and a pipe's write end are left to the caller with the buffer.
pub fn sys_write(
    process: &ProcessControlBlock,
    mem: &PhysMem,
    root: &mut RootInode,
    open_files: &mut Vec<OSInode>,
    fd: usize,
    buf: usize,
    len: usize,
) -> (r: FileIo)
    requires
        process.inner.memory_set.wf(mem),
        old(root).wf(),
        inodes_ok(process.inner.fd_table@, old(open_files)@, old(root)),
        backed(mem, process.inner.memory_set.root(), buf as int, len as int),
        forall|i: int| 0 <= i < old(open_files)@.len() ==> (#[trigger] old(open_files)@[i]).offset + len <= isize::MAX,
    ensures
        final(root).wf(),
        ({
            let t = process.inner.fd_table@;
            let rt = process.inner.memory_set.root();
            let pieces = user_pieces(mem, rt, buf as int, len as int);
            if fd >= t.len() || t[fd as int] is None || !t[fd as int]->0.can_write() || !buffer_ok(mem, rt, buf, len) {
                &&& r matches FileIo::Done(x) && x == -1
                &&& final(open_files)@ == old(open_files)@
                &&& final(root).entries@ == old(root).entries@
            } else {
                match t[fd as int]->0 {
                    FileDesc::Inode { id, readable, writeable } => {
                        let f = old(open_files)@[id as int];
                        &&& r matches FileIo::Done(x) && x == len
                        &&& final(open_files)@ == old(open_files)@.update(
                            id as int,
                            OSInode { offset: (f.offset + len) as usize, ..f },
                        )
                        &&& final(root).entries@.len() == old(root).entries@.len()
                        &&& forall|j: int| 0 <= j < old(root).entries@.len() && j != f.inode ==> #[trigger] final(root).entries@[j]
                            == old(root).entries@[j]
                        &&& final(root).content(f.inode as int) == if len == 0 {
                            old(root).content(f.inode as int)
                        } else {
                            spliced(old(root).content(f.inode as int), f.offset as int, buffer_bytes(mem, pieces))
                        }
                    },
                    FileDesc::PipeWrite(p) => {
                        &&& r matches FileIo::Pipe(q, b) && q == p && b.buf@ == pieces
                        &&& final(open_files)@ == old(open_files)@
                        &&& final(root).entries@ == old(root).entries@
                    },
                    _ => {
                        &&& r matches FileIo::Console(b) && b.buf@ == pieces
                        &&& final(open_files)@ == old(open_files)@
                        &&& final(root).entries@ == old(root).entries@
                    },
                }
            }
        }),
{
    let token = process.inner.get_user_token();
    proof {
        process.inner.memory_set.lemma_token_root(mem);
        assert(token_root(token) == process.inner.memory_set.root());
    }
    if fd >= process.inner.fd_table.len() {
        return FileIo::Done(-1);
    }
    let file = match process.inner.fd_table[fd] {
        Some(file) => file,
        None => {
            return FileIo::Done(-1);
        },
    };
    if !file.writeable() {
        return FileIo::Done(-1);
    }
    let user_buf = match UserBuffer::try_from_raw_parts(mem, token, buf, len) {
        Some(b) => b,
        None => {
            return FileIo::Done(-1);
        },
    };
    proof {
        lemma_pieces_unique(mem, token_root(token), buf as int, len as int, user_buf.buf@);
    }
    match file {
        FileDesc::Inode { id, readable, writeable } => {
            proof {
                lemma_user_pieces_in(mem, token_root(token), buf as int, len as int);
            }
            let mut f = open_files.remove(id);
            let n = f.write(root, mem, &user_buf);
            open_files.insert(id, f);
            proof {
                assert(open_files@ =~= old(open_files)@.update(
                    id as int,
                    OSInode { offset: (old(open_files)@[id as int].offset + len) as usize, ..old(open_files)@[id as int] },
                ));
                if len == 0 {
                    assert(user_buf.buf@.len() == 0);
                }
                if user_buf.buf@.len() == 0 {
                    assert(len == 0);
                }
            }
            FileIo::Done(n)
        },
        FileDesc::PipeWrite(p) => FileIo::Pipe(p, user_buf),
        _ => FileIo::Console(user_buf),
    }
}

/// Make a pipe and give its read and write ends the first two free descriptors, then
/// store the two descriptors, as 8-byte words, at user address `pipe` and the word
/// after it: `0`, or `-1` when either word's page is not mapped, in which case the
/// descriptors stay allocated. The pipe's buffer is appended to `pipes`.
pub fn sys_pipe(process: &mut ProcessControlBlock, mem: &mut PhysMem, pipes: &mut Vec<PipeRingBuffer>, pipe: usize) -> (r: isize)
    requires
        old(process).inner.wf(old(mem)),
        old(process).inner.fd_table@.len() + 2 < isize::MAX,
        pipe + 16 <= usize::MAX,
        walk(old(mem), old(process).inner.memory_set.root(), pipe as int / 4096) is Some ==> user_storable(
            old(mem),
            old(process).inner.memory_set.root(),
            pipe as int,
            8,
        ),
        walk(old(mem), old(process).inner.memory_set.root(), (pipe + 8) as int / 4096) is Some ==> user_storable(
            old(mem),
            old(process).inner.memory_set.root(),
            pipe + 8,
            8,
        ),
    ensures
        final(process).inner.wf(final(mem)),
        final(process).pid == old(process).pid,
        final(process).inner.memory_set == old(process).inner.memory_set,
        final(pipes)@.len() == old(pipes)@.len() + 1,
        forall|i: int| 0 <= i < old(pipes)@.len() ==> #[trigger] final(pipes)@[i] == old(pipes)@[i],
        final(pipes)@.last().wf() && final(pipes)@.last().contents().len() == 0,
        ({
            let t = old(process).inner.fd_table@;
            let id = old(pipes)@.len() as usize;
            let rt = old(process).inner.memory_set.root();
            let mapped = walk(old(mem), rt, pipe as int / 4096) is Some && walk(old(mem), rt, (pipe + 8) as int / 4096) is Some;
            exists|rfd: int, wfd: int|
                {
                    &&& #[trigger] is_first_none(t, rfd)
                    &&& #[trigger] is_first_none(set_in(t, rfd, Some(FileDesc::PipeRead(id))), wfd)
                    &&& final(process).inner.fd_table@ == set_in(
                        set_in(t, rfd, Some(FileDesc::PipeRead(id))),
                        wfd,
                        Some(FileDesc::PipeWrite(id)),
                    )
                    &&& (r == 0 <==> mapped)
                    &&& r == -1 ==> *final(mem) == *old(mem)
                    &&& r == 0 ==> {
                        let pr = user_pa(old(mem), rt, pipe as int);
                        let pw = user_pa(old(mem), rt, pipe + 8);
                        &&& forall|k: int| 0 <= k < 8 ==> #[trigger] final(mem).byte(pw + k) == le_bytes(wfd as u64, 8)[k]
                        &&& (pr + 8 <= pw || pw + 8 <= pr) ==> forall|k: int| 0 <= k < 8 ==> #[trigger] final(mem).byte(pr + k)
                            == le_bytes(rfd as u64, 8)[k]
                    }
                }
        }),
{
    let (buffer, read_end, write_end) = make_pipe();
    let id = pipes.len();
    pipes.push(buffer);
    let ghost mem0 = *mem;
    let inner = process.inner_exclusive_access();
    let read_fd = inner.alloc_fd();
    inner.fd_table.set(read_fd, Some(FileDesc::PipeRead(id)));
    proof {
        let t = old(process).inner.fd_table@;
        assert(inner.fd_table@ =~= set_in(t, read_fd as int, Some(FileDesc::PipeRead(id))));
    }
    let ghost t1 = inner.fd_table@;
    let write_fd = inner.alloc_fd();
    inner.fd_table.set(write_fd, Some(FileDesc::PipeWrite(id)));
    proof {
        assert(inner.fd_table@ =~= set_in(t1, write_fd as int, Some(FileDesc::PipeWrite(id))));
        let t = old(process).inner.fd_table@;
        assert(is_first_none(t, read_fd as int));
        assert(t1 == set_in(t, read_fd as int, Some(FileDesc::PipeRead(id))));
        assert(is_first_none(set_in(t, read_fd as int, Some(FileDesc::PipeRead(id))), write_fd as int));
        assert(id == old(pipes)@.len());
        assert(id == old(pipes)@.len() as usize);
    }
    let token = inner.get_user_token();
    proof {
        inner.memory_set.lemma_token_root(mem);
        assert(token_root(token) == inner.memory_set.root());
    }
    let read_pa = match try_translated_refmut(mem, token, pipe) {
        Some(pa) => pa,
        None => {
            proof {
                let t = old(process).inner.fd_table@;
                assert(is_first_none(t, read_fd as int) && is_first_none(
                    set_in(t, read_fd as int, Some(FileDesc::PipeRead(id))),
                    write_fd as int,
                ));
                assert(inner.fd_table@ == set_in(
                    set_in(t, read_fd as int, Some(FileDesc::PipeRead(id))),
                    write_fd as int,
                    Some(FileDesc::PipeWrite(id)),
                ));
                let rt = old(process).inner.memory_set.root();
                assert(!(walk(old(mem), rt, pipe as int / 4096) is Some));
            }
            return -1;
        },
    };
    let write_pa = match try_translated_refmut(mem, token, pipe + 8) {
        Some(pa) => pa,
        None => {
            proof {
                let t = old(process).inner.fd_table@;
                assert(is_first_none(t, read_fd as int) && is_first_none(
                    set_in(t, read_fd as int, Some(FileDesc::PipeRead(id))),
                    write_fd as int,
                ));
            }
            return -1;
        },
    };
    store_le(mem, read_pa.0, read_fd as u64, 8);
    store_le(mem, write_pa.0, write_fd as u64, 8);
    proof {
        inner.memory_set.lemma_wf_bytes(&mem0, mem);
    }
    0
}

} // verus!
