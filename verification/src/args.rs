//! The arguments of a new program, laid out at the top of its first user stack: a
//! null word, the array `argv` of pointers to the argument strings below it, and the
//! NUL-terminated strings below that, the first one highest.
use vstd::prelude::*;
use crate::page_table::PhysMem;
use crate::user_mem::{le_bytes, store_le};
use vstd::utf8::encode_utf8;
use vstd::string::StringSliceAdditionalSpecFns;

verus! {

/// The bytes of each argument, as UTF-8.
pub open spec fn arg_bytes(args: Seq<String>) -> Seq<Seq<u8>> {
    args.map_values(|s: String| encode_utf8(s@))
}

/// How many bytes the first `i` argument strings `a` take, each with its NUL.
pub open spec fn args_size(a: Seq<Seq<u8>>, i: int) -> int
    decreases i,
{
    if i <= 0 || i > a.len() {
        0
    } else {
        args_size(a, i - 1) + a[i - 1].len() + 1
    }
}

/// Where `argv` starts for `n` arguments below the stack top `top`.
pub open spec fn argv_base(top: int, n: int) -> int {
    top - 8 - 8 * n
}

/// Where argument string `i` of `a` starts below the stack top `top`.
pub open spec fn arg_addr(top: int, a: Seq<Seq<u8>>, i: int) -> int {
    argv_base(top, a.len() as int) - args_size(a, i + 1)
}

/// The stack pointer the program starts with: below the strings, rounded down to a
/// word.
pub open spec fn exec_sp(top: int, a: Seq<Seq<u8>>) -> int {
    let x = argv_base(top, a.len() as int) - args_size(a, a.len() as int);
    x - x % 8
}

/// Whether the arguments `a` fit in one stack page.
pub open spec fn args_fit(a: Seq<Seq<u8>>) -> bool {
    8 + 8 * a.len() + args_size(a, a.len() as int) <= 4096
}

/// Byte `va` of the stack page that ends at `top`, kept in physical page `frame`.
pub open spec fn frame_byte(mem: &PhysMem, frame: int, top: int, va: int) -> u8 {
    mem.byte(frame * 4096 + (va - (top - 4096)))
}

/// Byte `k` of the null word at the top of the stack page.
pub open spec fn null_byte(mem: &PhysMem, frame: int, top: int, k: int) -> u8 {
    frame_byte(mem, frame, top, top - 8 + k)
}

/// Byte `k` of pointer `j` of `argv`, for `n` arguments.
pub open spec fn argv_byte(mem: &PhysMem, frame: int, top: int, n: int, j: int, k: int) -> u8 {
    frame_byte(mem, frame, top, argv_base(top, n) + 8 * j + k)
}

/// Byte `k` of argument string `j` of `a`; byte `a[j].len()` is its NUL.
pub open spec fn string_byte(mem: &PhysMem, frame: int, top: int, a: Seq<Seq<u8>>, j: int, k: int) -> u8 {
    frame_byte(mem, frame, top, arg_addr(top, a, j) + k)
}

/// Whether the stack page holds the null word, and the pointers and strings of the
/// first `i` arguments of `a`.
pub open spec fn laid_out(mem: &PhysMem, frame: int, top: int, a: Seq<Seq<u8>>, i: int) -> bool {
    &&& forall|k: int| 0 <= k < 8 ==> #[trigger] null_byte(mem, frame, top, k) == 0
    &&& forall|j: int, k: int|
        0 <= j < i && 0 <= k < 8 ==> #[trigger] argv_byte(mem, frame, top, a.len() as int, j, k) == le_bytes(
            arg_addr(top, a, j) as u64,
            8,
        )[k]
    &&& forall|j: int, k: int|
        0 <= j < i && 0 <= k <= a[j].len() ==> #[trigger] string_byte(mem, frame, top, a, j, k) == if k < a[j].len() {
            a[j][k]
        } else {
            0u8
        }
}

/// The strings take more room the more of them there are.
proof fn lemma_args_size_mono(a: Seq<Seq<u8>>, i: int, j: int)
    requires
        0 <= i <= j <= a.len(),
    ensures
        0 <= args_size(a, i) <= args_size(a, j),
    decreases j - i,
{
    if i < j {
        lemma_args_size_mono(a, i, j - 1);
    } else {
        lemma_args_size_nonneg(a, i);
    }
}

/// The strings take no negative room.
proof fn lemma_args_size_nonneg(a: Seq<Seq<u8>>, i: int)
    ensures
        0 <= args_size(a, i),
    decreases i,
{
    if i > 0 && i <= a.len() {
        lemma_args_size_nonneg(a, i - 1);
    }
}

/// Writing string `i` and then pointer `i` keeps what is laid out and adds argument `i`.
proof fn lemma_args_step(
    m0: &PhysMem,
    m_inner: &PhysMem,
    m1: &PhysMem,
    mem: &PhysMem,
    fr: int,
    tp: int,
    a: Seq<Seq<u8>>,
    i: int,
    sp: int,
)
    requires
        0 <= i < a.len(),
        args_fit(a),
        4096 <= tp,
        sp == arg_addr(tp, a, i),
        sp >= tp - 4096,
        laid_out(m0, fr, tp, a, i),
        forall|x: int|
            !(fr * 4096 + (sp - (tp - 4096)) <= x < fr * 4096 + (sp - (tp - 4096)) + a[i].len()) ==> #[trigger] m_inner.byte(x)
                == m0.byte(x),
        forall|q: int| 0 <= q < a[i].len() ==> #[trigger] m_inner.byte(fr * 4096 + (sp - (tp - 4096)) + q) == a[i][q],
        forall|x: int| #[trigger]
            m1.byte(x) == if x == fr * 4096 + (sp - (tp - 4096)) + a[i].len() {
                0u8
            } else {
                m_inner.byte(x)
            },
        forall|x: int| #[trigger]
            mem.byte(x) == if fr * 4096 + (argv_base(tp, a.len() as int) + i * 8 - (tp - 4096)) <= x < fr * 4096 + (argv_base(
                tp,
                a.len() as int,
            ) + i * 8 - (tp - 4096)) + 8 {
                le_bytes(sp as u64, 8)[x - (fr * 4096 + (argv_base(tp, a.len() as int) + i * 8 - (tp - 4096)))]
            } else {
                m1.byte(x)
            },
    ensures
        laid_out(mem, fr, tp, a, i + 1),
{
    let n = a.len() as int;
    let base = fr * 4096;
    let bottom = tp - 4096;
    let argv = argv_base(tp, n);
    let len = a[i].len() as int;
    lemma_args_size_mono(a, i + 1, n);
    lemma_args_size_mono(a, i, i + 1);
    assert(args_size(a, i + 1) == args_size(a, i) + len + 1);
    assert(sp + len + 1 <= argv);
    assert forall|q: int| 0 <= q < 8 implies #[trigger] null_byte(mem, fr, tp, q) == 0 by {
        assert(null_byte(m0, fr, tp, q) == 0);
    }
    assert forall|j: int, q: int| 0 <= j < i + 1 && 0 <= q < 8 implies #[trigger] argv_byte(mem, fr, tp, n, j, q)
        == le_bytes(arg_addr(tp, a, j) as u64, 8)[q] by {
        if j < i {
            assert(argv_byte(m0, fr, tp, n, j, q) == le_bytes(arg_addr(tp, a, j) as u64, 8)[q]);
        }
    }
    assert forall|j: int, q: int| 0 <= j < i + 1 && 0 <= q <= a[j].len() implies #[trigger] string_byte(
        mem,
        fr,
        tp,
        a,
        j,
        q,
    ) == if q < a[j].len() {
        a[j][q]
    } else {
        0u8
    } by {
        if j < i {
            lemma_args_size_mono(a, j + 1, i);
            let x = base + (arg_addr(tp, a, j) + q - bottom);
            lemma_args_size_nonneg(a, j);
            assert(args_size(a, j + 1) == args_size(a, j) + a[j].len() + 1);
            assert(x > base + (sp - bottom) + len);
            assert(x < base + (argv - bottom));
            assert(string_byte(mem, fr, tp, a, j, q) == mem.byte(x));
            assert(mem.byte(x) == m1.byte(x));
            assert(m1.byte(x) == m_inner.byte(x));
            assert(m_inner.byte(x) == m0.byte(x));
            assert(string_byte(m0, fr, tp, a, j, q) == if q < a[j].len() {
                a[j][q]
            } else {
                0u8
            });
        } else {
            let x = base + (sp - bottom) + q;
            assert(string_byte(mem, fr, tp, a, j, q) == mem.byte(x));
            assert(mem.byte(x) == m1.byte(x));
            if q < a[j].len() {
                assert(m_inner.byte(x) == a[i][q]);
                assert(m1.byte(x) == m_inner.byte(x));
            } else {
                assert(m1.byte(x) == 0u8);
            }
        }
    }
}

/// Write the arguments `args` into the stack page that ends at user address `top`,
/// kept in physical page `frame`: the null word at the top, the pointers of `argv`
/// below it, and the strings below them. Returns where `argv` starts and the stack
/// pointer to start with.
#[verifier::rlimit(60)]
pub fn write_args(mem: &mut PhysMem, frame: usize, top: usize, args: &Vec<String>) -> (r: (usize, usize))
    requires
        old(mem).wf(),
        frame < old(mem).nframes(),
        4096 <= top,
        top % 8 == 0,
        args_fit(arg_bytes(args@)),
    ensures
        final(mem).wf(),
        final(mem).nframes() == old(mem).nframes(),
        final(mem).frame_limit() == old(mem).frame_limit(),
        forall|f: int, s: int| #[trigger] final(mem).pte(f, s) == old(mem).pte(f, s),
        forall|x: int| !(frame * 4096 <= x < frame * 4096 + 4096) ==> #[trigger] final(mem).byte(x) == old(mem).byte(x),
        r.0 == argv_base(top as int, args@.len() as int),
        r.1 == exec_sp(top as int, arg_bytes(args@)),
        laid_out(final(mem), frame as int, top as int, arg_bytes(args@), args@.len() as int),
{
    let ghost a = arg_bytes(args@);
    let n = args.len();
    proof {
        mem.lemma_frames_bound();
        lemma_args_size_mono(a, 0, n as int);
        assert(frame * 4096 + 4096 <= mem.nframes() * 4096) by (nonlinear_arith)
            requires
                frame + 1 <= mem.nframes(),
        ;
        assert(mem.nframes() * 4096 <= usize::MAX) by (nonlinear_arith)
            requires
                mem.nframes() <= mem.frame_limit(),
                mem.frame_limit() <= usize::MAX / 4096,
        ;
    }
    let base = frame * 4096;
    let bottom = top - 4096;
    let mut sp = top - 8;
    store_le(mem, base + (sp - bottom), 0, 8);
    proof {
        assert forall|k: int| 0 <= k < 8 implies #[trigger] null_byte(mem, frame as int, top as int, k) == 0 by {
            assert(le_bytes(0, 8)[k] == ((0u64 >> (8 * k) as u64) & 0xffu64) as u8);
            let kk = (8 * k) as u64;
            assert(((0u64 >> kk) & 0xffu64) as u8 == 0u8) by (bit_vector);
        }
    }
    sp = sp - n * 8;
    let argv = sp;
    let mut i: usize = 0;
    while i < n
        invariant
            a == arg_bytes(args@),
            n == args@.len(),
            a.len() == n,
            args_fit(a),
            0 <= i <= n,
            base == frame * 4096,
            bottom == top - 4096,
            frame + 1 <= mem.nframes(),
            base + 4096 <= mem.nframes() * 4096,
            argv == argv_base(top as int, n as int),
            sp == argv - args_size(a, i as int),
            4096 <= top,
            top % 8 == 0,
            mem.wf(),
            mem.nframes() == old(mem).nframes(),
            mem.frame_limit() == old(mem).frame_limit(),
            forall|f: int, s: int| #[trigger] mem.pte(f, s) == old(mem).pte(f, s),
            forall|x: int| !(base <= x < base + 4096) ==> #[trigger] mem.byte(x) == old(mem).byte(x),
            laid_out(mem, frame as int, top as int, a, i as int),
        decreases n - i,
    {
        proof {
            lemma_args_size_mono(a, i as int + 1, n as int);
            lemma_args_size_mono(a, i as int, i as int + 1);
        }
        let bytes = args[i].as_str().as_bytes();
        let len = bytes.len();
        proof {
            assert(bytes@ == a[i as int]);
            assert(args_size(a, i + 1) == args_size(a, i as int) + len + 1);
        }
        sp = sp - (len + 1);
        let ghost m0 = *mem;
        let mut k: usize = 0;
        while k < len
            invariant
                a == arg_bytes(args@),
                n == args@.len(),
                a.len() == n,
                0 <= i < n,
                bytes@ == a[i as int],
                len == bytes@.len(),
                0 <= k <= len,
                base == frame * 4096,
                bottom == top - 4096,
                base + 4096 <= mem.nframes() * 4096,
                argv == argv_base(top as int, n as int),
                sp == arg_addr(top as int, a, i as int),
                sp >= bottom,
                sp + len + 1 <= argv,
                mem.wf(),
                mem.nframes() == m0.nframes(),
                mem.frame_limit() == m0.frame_limit(),
                forall|f: int, s: int| #[trigger] mem.pte(f, s) == m0.pte(f, s),
                forall|x: int| !(base + (sp - bottom) <= x < base + (sp - bottom) + k) ==> #[trigger] mem.byte(x) == m0.byte(x),
                forall|q: int| 0 <= q < k ==> #[trigger] mem.byte(base + (sp - bottom) + q) == a[i as int][q],
            decreases len - k,
        {
            mem.write_byte(base + (sp - bottom) + k, bytes[k]);
            k = k + 1;
        }
        let ghost m_inner = *mem;
        mem.write_byte(base + (sp - bottom) + len, 0);
        let ghost m1 = *mem;
        store_le(mem, base + (argv + i * 8 - bottom), sp as u64, 8);
        proof {
            lemma_args_step(&m0, &m_inner, &m1, mem, frame as int, top as int, a, i as int, sp as int);
        }
        i = i + 1;
    }
    sp = sp - sp % 8;
    (argv, sp)
}

/// Whether the arguments `args` fit in one stack page.
pub fn args_fit_check(args: &Vec<String>) -> (r: bool)
    ensures
        r == args_fit(arg_bytes(args@)),
        r ==> args@.len() <= 511,
{
    let ghost a = arg_bytes(args@);
    let n = args.len();
    if n > 511 {
        proof {
            lemma_args_size_nonneg(a, n as int);
        }
        return false;
    }
    let mut total: usize = 8 + 8 * n;
    let mut i: usize = 0;
    while i < n
        invariant
            a == arg_bytes(args@),
            n == args@.len(),
            n <= 511,
            0 <= i <= n,
            total == 8 + 8 * n + args_size(a, i as int),
            total <= 4096,
        decreases n - i,
    {
        let len = args[i].as_str().as_bytes().len();
        if len >= 4096 {
            proof {
                lemma_args_size_mono(a, i as int + 1, n as int);
                lemma_args_size_nonneg(a, i as int);
            }
            return false;
        }
        total = total + len + 1;
        i = i + 1;
        if total > 4096 {
            proof {
                lemma_args_size_mono(a, i as int, n as int);
            }
            return false;
        }
    }
    true
}

} // verus!
