//! Checked access to user memory: translations that report an unmapped page instead
//! of failing, and stores of values into physical memory.
use vstd::prelude::*;
use crate::addr::{PhysAddr, VirtAddr, VirtPageNum, page_floor, page_ceil};
use crate::config::PAGE_SIZE;
use crate::page_table::{
    PhysMem, PageTable, PhysSlice, UserBuffer, walk, user_byte, user_cstr, range_mapped, byte_pieces_ok, total_len,
    PPN_MASK, lemma_ppn_bound, string_push,
};

verus! {

/// The root frame named by a `satp` token.
pub open spec fn token_root(token: usize) -> int {
    ((token as u64) & PPN_MASK) as usize as int
}

/// The physical address that user address `va` translates to, when its page is mapped.
pub open spec fn user_pa(mem: &PhysMem, root: int, va: int) -> int {
    ((walk(mem, root, va / 4096).unwrap().spec_ppn() * 4096 + va % 4096) as usize) as int
}

/// Whether `n` bytes can be stored at the physical address that user address `va`
/// translates to: its page is mapped and the bytes lie in handed-out frames.
pub open spec fn user_storable(mem: &PhysMem, root: int, va: int, n: int) -> bool {
    &&& walk(mem, root, va / 4096).is_some()
    &&& user_pa(mem, root, va) + n <= mem.nframes() * 4096
}

/// The bytes of `v`, least significant first.
pub open spec fn le_bytes(v: u64, n: int) -> Seq<u8> {
    Seq::new(n as nat, |k: int| ((v >> (8 * k) as u64) & 0xffu64) as u8)
}

/// The NUL-terminated string at user address `ptr` of the address space named by
/// `token`, each byte taken as one character; `None` when a page on the way is not
/// mapped or the address space ends before a NUL.
pub fn try_translated_str(mem: &PhysMem, token: usize, ptr: usize) -> (r: Option<String>)
    requires
        mem.wf(),
    ensures
        match r {
            Some(s) => exists|n: int|
                #[trigger] user_cstr(mem, token_root(token), ptr as int, n) && s@ == Seq::new(
                    n as nat,
                    |j: int| (user_byte(mem, token_root(token), ptr as int + j).unwrap() as char),
                ),
            None => forall|n: int| !#[trigger] user_cstr(mem, token_root(token), ptr as int, n),
        },
{
    let page_table = PageTable::from_token(token);
    let ghost root = token_root(token);
    let mut string = String::new();
    let mut va = ptr;
    loop
        invariant
            mem.wf(),
            page_table.root() == root,
            root == token_root(token),
            ptr <= va,
            forall|j: int|
                0 <= j < va - ptr ==> (#[trigger] user_byte(mem, root, ptr as int + j)).is_some() && user_byte(
                    mem,
                    root,
                    ptr as int + j,
                ) != Some(0u8),
            string@ == Seq::new((va - ptr) as nat, |j: int| (user_byte(mem, root, ptr as int + j).unwrap() as char)),
        decreases usize::MAX - va,
    {
        proof {
            if walk(mem, root, va as int / 4096).is_some() {
                lemma_ppn_bound(walk(mem, root, va as int / 4096).unwrap());
            }
        }
        let pa = page_table.translate_va(mem, VirtAddr(va));
        if pa.is_none() {
            proof {
                assert forall|n: int| !#[trigger] user_cstr(mem, root, ptr as int, n) by {
                    if user_cstr(mem, root, ptr as int, n) {
                        if n < va - ptr {
                            assert(user_byte(mem, root, ptr as int + n).is_some() && user_byte(mem, root, ptr as int + n) != Some(0u8));
                        } else if n == va - ptr {
                            assert(user_byte(mem, root, ptr as int + n) == Some(0u8));
                        } else {
                            assert(user_byte(mem, root, ptr as int + (va - ptr)).is_some());
                        }
                    }
                }
            }
            return None;
        }
        let ch: u8 = mem.read_byte(pa.unwrap().0);
        proof {
            assert(user_byte(mem, root, ptr as int + (va - ptr)) == Some(ch));
        }
        if ch == 0 {
            proof {
                assert(user_cstr(mem, root, ptr as int, va - ptr));
            }
            return Some(string);
        }
        if va == usize::MAX {
            proof {
                assert forall|n: int| !#[trigger] user_cstr(mem, root, ptr as int, n) by {
                    if user_cstr(mem, root, ptr as int, n) {
                        if n < va - ptr {
                            assert(user_byte(mem, root, ptr as int + n).is_some() && user_byte(mem, root, ptr as int + n) != Some(0u8));
                        } else if n == va - ptr {
                            assert(user_byte(mem, root, ptr as int + n) == Some(0u8));
                        }
                    }
                }
            }
            return None;
        }
        string_push(&mut string, ch as char);
        proof {
            assert(string@ =~= Seq::new((va + 1 - ptr) as nat, |j: int| (user_byte(mem, root, ptr as int + j).unwrap() as char)));
        }
        va = va + 1;
    }
}

/// The NUL-terminated string at user address `ptr`, each byte taken as a character,
/// if one is there.
pub open spec fn cstr_at(mem: &PhysMem, root: int, ptr: int) -> Option<Seq<char>> {
    if exists|n: int| #[trigger] user_cstr(mem, root, ptr, n) {
        let n = choose|n: int| #[trigger] user_cstr(mem, root, ptr, n);
        Some(Seq::new(n as nat, |j: int| (user_byte(mem, root, ptr + j).unwrap() as char)))
    } else {
        None
    }
}

/// A string ends at its first NUL, so its length is determined.
pub proof fn lemma_cstr_unique(mem: &PhysMem, root: int, ptr: int, n1: int, n2: int)
    requires
        user_cstr(mem, root, ptr, n1),
        user_cstr(mem, root, ptr, n2),
    ensures
        n1 == n2,
{
    if n1 < n2 {
        assert(user_byte(mem, root, ptr + n1) != Some(0u8));
    } else if n2 < n1 {
        assert(user_byte(mem, root, ptr + n2) != Some(0u8));
    }
}

/// The per-page pieces of the user bytes `[ptr, ptr + len)`.
pub open spec fn user_pieces(mem: &PhysMem, root: int, ptr: int, len: int) -> Seq<PhysSlice> {
    let end = ptr + len;
    let v0 = page_floor(ptr);
    Seq::new(
        (if len > 0 { page_ceil(end) - v0 } else { 0 }) as nat,
        |i: int|
            {
                let page = (v0 + i) * 4096;
                PhysSlice {
                    ppn: crate::addr::PhysPageNum(crate::page_table::backing_ppn(mem, root, v0 + i)),
                    start: ((if ptr > page { ptr } else { page }) - page) as usize,
                    end: ((if end < page + 4096 { end } else { page + 4096 }) - page) as usize,
                }
            },
    )
}

/// The pieces of a run of user bytes are determined by the bytes.
pub proof fn lemma_pieces_unique(mem: &PhysMem, root: int, ptr: int, len: int, s: Seq<PhysSlice>)
    requires
        byte_pieces_ok(mem, root, ptr, len, s),
    ensures
        s == user_pieces(mem, root, ptr, len),
{
    let u = user_pieces(mem, root, ptr, len);
    assert forall|i: int| 0 <= i < s.len() implies #[trigger] s[i] == u[i] by {
        let page = (page_floor(ptr) + i) * 4096;
        assert(s[i].ppn == u[i].ppn);
    }
    assert(s =~= u);
}

/// Whether every mapped page that the user bytes `[ptr, ptr + len)` touch is backed by
/// a handed-out frame.
pub open spec fn backed(mem: &PhysMem, root: int, ptr: int, len: int) -> bool {
    forall|vpn: int|
        page_floor(ptr) <= vpn < page_ceil(ptr + len) && walk(mem, root, vpn).is_some() ==> (#[trigger] walk(
            mem,
            root,
            vpn,
        )).unwrap().spec_ppn() < mem.nframes()
}

/// The pieces of mapped, backed user bytes lie inside single pages of handed-out memory.
pub proof fn lemma_user_pieces_in(mem: &PhysMem, root: int, ptr: int, len: int)
    requires
        mem.wf(),
        0 <= ptr,
        0 <= len,
        ptr + len <= usize::MAX - 4095,
        range_mapped(mem, root, ptr, ptr + len),
        backed(mem, root, ptr, len),
    ensures
        crate::fs::pieces_in(mem, user_pieces(mem, root, ptr, len)),
{
    let s = user_pieces(mem, root, ptr, len);
    let end = ptr + len;
    let v0 = page_floor(ptr);
    mem.lemma_frames_bound();
    assert forall|i: int| 0 <= i < s.len() implies (#[trigger] s[i]).start <= s[i].end <= 4096
        && s[i].ppn.0 * 4096 + s[i].end <= mem.nframes() * 4096 by {
        let page = (v0 + i) * 4096;
        assert(v0 * 4096 <= ptr < v0 * 4096 + 4096) by (nonlinear_arith)
            requires
                v0 == ptr / 4096,
                ptr >= 0,
        ;
        assert(page_ceil(end) * 4096 >= end) by (nonlinear_arith)
            requires
                page_ceil(end) == (end + 4095) / 4096,
                end >= 0,
        ;
        assert(page_ceil(end) * 4096 < end + 4096) by (nonlinear_arith)
            requires
                page_ceil(end) == (end + 4095) / 4096,
                end >= 0,
        ;
        assert(page == v0 * 4096 + i * 4096) by (nonlinear_arith)
            requires
                page == (v0 + i) * 4096,
        ;
        assert(i < page_ceil(end) - v0);
        assert(page + 4096 <= page_ceil(end) * 4096) by (nonlinear_arith)
            requires
                page == (v0 + i) * 4096,
                v0 + i + 1 <= page_ceil(end),
        ;
        assert(page < end) by (nonlinear_arith)
            requires
                page == (v0 + i) * 4096,
                v0 + i < page_ceil(end),
                page_ceil(end) == (end + 4095) / 4096,
        ;
        let vpn = v0 + i;
        assert(page_floor(ptr) <= vpn < page_ceil(ptr + len));
        assert(walk(mem, root, vpn).is_some());
        let p = walk(mem, root, vpn).unwrap().spec_ppn();
        assert(p < mem.nframes());
        assert(s[i].ppn.0 == p as usize);
        assert(s[i].ppn.0 * 4096 + 4096 <= mem.nframes() * 4096) by (nonlinear_arith)
            requires
                s[i].ppn.0 + 1 <= mem.nframes(),
        ;
    }
}

/// The physical address of the user object at `ptr` in the address space named by
/// `token`, or `None` when its page is not mapped.
pub fn try_translated_refmut(mem: &PhysMem, token: usize, ptr: usize) -> (r: Option<PhysAddr>)
    requires
        mem.wf(),
    ensures
        match r {
            Some(pa) => walk(mem, token_root(token), ptr as int / 4096).is_some() && pa.0 == user_pa(
                mem,
                token_root(token),
                ptr as int,
            ),
            None => walk(mem, token_root(token), ptr as int / 4096).is_none(),
        },
{
    let page_table = PageTable::from_token(token);
    proof {
        if walk(mem, token_root(token), ptr as int / 4096).is_some() {
            lemma_ppn_bound(walk(mem, token_root(token), ptr as int / 4096).unwrap());
        }
    }
    page_table.translate_va(mem, VirtAddr(ptr))
}

/// Store the `n` low bytes of `v`, least significant first, at physical address `pa`.
pub fn store_le(mem: &mut PhysMem, pa: usize, v: u64, n: usize)
    requires
        old(mem).wf(),
        n <= 8,
        pa + n <= old(mem).nframes() * 4096,
    ensures
        final(mem).wf(),
        final(mem).nframes() == old(mem).nframes(),
        final(mem).frame_limit() == old(mem).frame_limit(),
        forall|f: int, s: int| #[trigger] final(mem).pte(f, s) == old(mem).pte(f, s),
        forall|x: int| #[trigger]
            final(mem).byte(x) == if pa <= x < pa + n {
                le_bytes(v, n as int)[x - pa]
            } else {
                old(mem).byte(x)
            },
{
    let mut k: usize = 0;
    while k < n
        invariant
            mem.wf(),
            0 <= k <= n <= 8,
            pa + n <= mem.nframes() * 4096,
            mem.nframes() == old(mem).nframes(),
            mem.frame_limit() == old(mem).frame_limit(),
            forall|f: int, s: int| #[trigger] mem.pte(f, s) == old(mem).pte(f, s),
            forall|x: int| #[trigger]
                mem.byte(x) == if pa <= x < pa + k {
                    le_bytes(v, n as int)[x - pa]
                } else {
                    old(mem).byte(x)
                },
        decreases n - k,
    {
        proof {
            mem.lemma_frames_bound();
        }
        let b = #[verifier::truncate] (((v >> (8 * k as u64)) & 0xffu64) as u8);
        mem.write_byte(pa + k, b);
        k = k + 1;
    }
}

impl UserBuffer {
    /// The buffer of the user bytes `[ptr, ptr + len)` of the address space named by
    /// `token`, or `None` when a page of them is not mapped or their end is out of range.
    pub fn try_from_raw_parts(mem: &PhysMem, token: usize, ptr: usize, len: usize) -> (r: Option<UserBuffer>)
        requires
            mem.wf(),
        ensures
            r is Some <==> ptr + len <= usize::MAX - 4095 && range_mapped(mem, token_root(token), ptr as int, ptr + len),
            r matches Some(b) ==> byte_pieces_ok(mem, token_root(token), ptr as int, len as int, b.buf@) && total_len(
                b.buf@,
            ) == len,
    {
        if len > usize::MAX - 4095 || ptr > usize::MAX - 4095 - len {
            return None;
        }
        let page_table = PageTable::from_token(token);
        let ghost root = token_root(token);
        let end = ptr + len;
        let first = VirtAddr(ptr).floor();
        let last = VirtAddr(end).ceil();
        let mut vpn = first.0;
        while vpn < last.0
            invariant
                mem.wf(),
                page_table.root() == root,
                root == token_root(token),
                end == ptr + len,
                end <= usize::MAX - 4095,
                first.0 == page_floor(ptr as int),
                last.0 == page_ceil(end as int),
                first.0 <= vpn <= last.0,
                forall|u: int| first.0 <= u < vpn ==> #[trigger] walk(mem, root, u).is_some(),
            decreases last.0 - vpn,
        {
            if page_table.translate(mem, VirtPageNum(vpn)).is_none() {
                return None;
            }
            vpn = vpn + 1;
        }
        Some(UserBuffer::from_raw_parts(mem, token, ptr, len))
    }
}

/// The value of the `n` bytes of physical memory from `pa` on, least significant first.
pub open spec fn le_value(mem: &PhysMem, pa: int, n: nat) -> int
    decreases n,
{
    if n == 0 {
        0
    } else {
        mem.byte(pa) + 256 * le_value(mem, pa + 1, (n - 1) as nat)
    }
}

/// The machine word stored at physical address `pa`, least significant byte first.
pub fn load_word(mem: &PhysMem, pa: usize) -> (r: u64)
    requires
        pa + 8 <= usize::MAX,
    ensures
        r == le_value(mem, pa as int, 8),
{
    let b0 = mem.read_byte(pa) as u64;
    let b1 = mem.read_byte(pa + 1) as u64;
    let b2 = mem.read_byte(pa + 2) as u64;
    let b3 = mem.read_byte(pa + 3) as u64;
    let b4 = mem.read_byte(pa + 4) as u64;
    let b5 = mem.read_byte(pa + 5) as u64;
    let b6 = mem.read_byte(pa + 6) as u64;
    let b7 = mem.read_byte(pa + 7) as u64;
    let v = b7;
    let v = b6 + 256 * v;
    let v = b5 + 256 * v;
    let v = b4 + 256 * v;
    let v = b3 + 256 * v;
    let v = b2 + 256 * v;
    let v = b1 + 256 * v;
    let v = b0 + 256 * v;
    proof {
        reveal_with_fuel(le_value, 9);
    }
    v
}

/// The word at user address `ptr`, read at the physical address it translates to.
pub open spec fn user_word(mem: &PhysMem, root: int, ptr: int) -> int {
    (le_value(mem, user_pa(mem, root, ptr), 8) as u64) as usize as int
}

/// The argument strings that the null-terminated array of string pointers at user
/// address `ptr` names, in order; `None` when a pointer cannot be read, a string cannot
/// be read, or the array runs to the end of the address space.
pub open spec fn argv_from(mem: &PhysMem, root: int, ptr: int) -> Option<Seq<Seq<char>>>
    decreases usize::MAX - ptr,
{
    if !(0 <= ptr <= usize::MAX - 8) || walk(mem, root, ptr / 4096) is None || user_pa(mem, root, ptr) + 8
        > usize::MAX {
        None
    } else if user_word(mem, root, ptr) == 0 {
        Some(Seq::empty())
    } else {
        match cstr_at(mem, root, user_word(mem, root, ptr)) {
            None => None,
            Some(s) => match argv_from(mem, root, ptr + 8) {
                Some(rest) => Some(seq![s] + rest),
                None => None,
            },
        }
    }
}

/// `rest` with the strings `first` put in front, if there is a `rest`.
pub open spec fn prepend(first: Seq<Seq<char>>, rest: Option<Seq<Seq<char>>>) -> Option<Seq<Seq<char>>> {
    match rest {
        Some(r) => Some(first + r),
        None => None,
    }
}

/// The views of `v`.
pub open spec fn string_views(v: Seq<String>) -> Seq<Seq<char>> {
    v.map_values(|s: String| s@)
}

/// The NUL-terminated string at user address `ptr` of the address space named by
/// `token`, as `cstr_at` reads it.
pub fn read_cstr(mem: &PhysMem, token: usize, ptr: usize) -> (r: Option<String>)
    requires
        mem.wf(),
    ensures
        match cstr_at(mem, token_root(token), ptr as int) {
            Some(s) => r matches Some(t) && t@ == s,
            None => r is None,
        },
{
    let r = try_translated_str(mem, token, ptr);
    proof {
        let rt = token_root(token);
        if let Some(name) = &r {
            let n = choose|n: int| #[trigger] user_cstr(mem, rt, ptr as int, n);
            let m = choose|m: int| #[trigger] user_cstr(mem, rt, ptr as int, m) && name@ == Seq::new(
                m as nat,
                |j: int| (user_byte(mem, rt, ptr as int + j).unwrap() as char),
            );
            lemma_cstr_unique(mem, rt, ptr as int, n, m);
        }
    }
    r
}

/// The argument strings that the null-terminated array of string pointers at user
/// address `ptr` of the address space named by `token` names, as `argv_from` reads them.
pub fn read_argv(mem: &PhysMem, token: usize, ptr: usize) -> (r: Option<Vec<String>>)
    requires
        mem.wf(),
    ensures
        match argv_from(mem, token_root(token), ptr as int) {
            Some(a) => r matches Some(v) && string_views(v@) == a,
            None => r is None,
        },
{
    let ghost root = token_root(token);
    let page_table = PageTable::from_token(token);
    let mut v: Vec<String> = Vec::new();
    let mut p = ptr;
    loop
        invariant
            mem.wf(),
            page_table.root() == root,
            root == token_root(token),
            argv_from(mem, root, ptr as int) == prepend(string_views(v@), argv_from(mem, root, p as int)),
        decreases usize::MAX - p,
    {
        proof {
            assert(string_views(v@) + Seq::<Seq<char>>::empty() =~= string_views(v@));
            if walk(mem, root, p as int / 4096).is_some() {
                lemma_ppn_bound(walk(mem, root, p as int / 4096).unwrap());
            }
        }
        if p > usize::MAX - 8 {
            return None;
        }
        let pa = match page_table.translate_va(mem, VirtAddr(p)) {
            Some(pa) => pa.0,
            None => {
                return None;
            },
        };
        if pa > usize::MAX - 8 {
            return None;
        }
        let w = load_word(mem, pa);
        let a = #[verifier::truncate] (w as usize);
        if a == 0 {
            return Some(v);
        }
        let s = match read_cstr(mem, token, a) {
            Some(s) => s,
            None => {
                return None;
            },
        };
        let ghost before = string_views(v@);
        v.push(s);
        proof {
            assert(string_views(v@) =~= before + seq![s@]);
            match argv_from(mem, root, p + 8) {
                Some(rest) => {
                    assert(before + (seq![s@] + rest) =~= (before + seq![s@]) + rest);
                },
                None => {},
            }
        }
        p = p + 8;
    }
}

} // verus!
