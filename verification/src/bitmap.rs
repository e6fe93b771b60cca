//! The allocation bitmap of the file system: a run of blocks whose bits mark
//! which inodes or data blocks are in use.
use vstd::prelude::*;
use vstd::std_specs::bits::axiom_u64_trailing_ones;

verus! {

/// Size of a disk block in bytes.
pub const BLOCK_SIZE: usize = 512;
/// Number of bits in one block.
pub const BLOCK_BITS: usize = 4096;
/// Number of 64-bit words in one block.
pub const BLOCK_WORDS: usize = 64;

/// Reads and writes whole blocks of a storage device.
pub trait BlockDevice {
    /// Read block `block_id` into `buf`.
    fn read_block(&self, block_id: usize, buf: &mut [u8]);
    /// Write `buf` to block `block_id`.
    fn write_block(&self, block_id: usize, buf: &[u8]);
}

/// The cached contents of the device's blocks as 64-bit words, `BLOCK_WORDS` per block.
pub struct BlockCache {
    /// The words of every block, block after block.
    pub words: Vec<u64>,
}

impl BlockCache {
    /// A cache of `blocks` zeroed blocks.
    pub fn new(blocks: usize) -> (r: BlockCache)
        requires
            blocks * BLOCK_WORDS <= usize::MAX,
        ensures
            r.words@.len() == blocks * BLOCK_WORDS,
            forall|i: int| 0 <= i < r.words@.len() ==> r.words@[i] == 0,
    {
        let n = blocks * BLOCK_WORDS;
        let mut words: Vec<u64> = Vec::new();
        while words.len() < n
            invariant
                words@.len() <= n,
                forall|i: int| 0 <= i < words@.len() ==> words@[i] == 0,
            decreases n - words@.len(),
        {
            words.push(0);
        }
        BlockCache { words }
    }
}

/// Whether bit `k` of word `w` of `words` is set.
pub open spec fn bit_set(words: Seq<u64>, w: int, k: int) -> bool {
    (words[w] >> (k as u64)) & 1u64 == 1u64
}

/// Word `x` with bit `k` set.
pub open spec fn set_bit(x: u64, k: int) -> u64 {
    x | (1u64 << (k as u64))
}

/// Word `x` with bit `k`, which is set, taken away.
pub open spec fn clear_bit(x: u64, k: int) -> u64 {
    (x - (1u64 << (k as u64))) as u64
}

/// `words` with bit `k` of word `w` set to `v`, every other bit as before.
pub open spec fn with_bit(words: Seq<u64>, w: int, k: int, v: bool, after: Seq<u64>) -> bool {
    &&& after.len() == words.len()
    &&& forall|i: int| 0 <= i < words.len() && i != w ==> after[i] == words[i]
    &&& forall|j: int| 0 <= j < 64 && j != k ==> (#[trigger] bit_set(after, w, j) <==> bit_set(words, w, j))
    &&& bit_set(after, w, k) == v
}

/// Split a bit number into its block, its word within the block and its bit within the word.
pub fn decomposition(bit: usize) -> (r: (usize, usize, usize))
    ensures
        r.0 == bit / BLOCK_BITS,
        r.1 == (bit % BLOCK_BITS) / 64,
        r.2 == bit % 64,
        r.1 < 64,
        r.2 < 64,
        r.0 * 64 + r.1 == bit / 64,
        bit == r.0 * BLOCK_BITS + r.1 * 64 + r.2,
{
    let block_pos = bit / BLOCK_BITS;
    let rest = bit % BLOCK_BITS;
    proof {
        assert(bit == block_pos * 4096 + rest) by (nonlinear_arith)
            requires
                block_pos == bit / 4096,
                rest == bit % 4096,
        ;
        assert(bit / 64 == block_pos * 64 + rest / 64 && bit % 64 == rest % 64) by (nonlinear_arith)
            requires
                bit == block_pos * 4096 + rest,
                0 <= rest < 4096,
        ;
    }
    (block_pos, rest / 64, rest % 64)
}

proof fn lemma_full_word(w: u64, k: u64)
    requires
        w == u64::MAX,
        k < 64,
    ensures
        (w >> k) & 1u64 == 1u64,
{
    assert((0xffff_ffff_ffff_ffffu64 >> k) & 1u64 == 1u64) by (bit_vector)
        requires
            k < 64,
    ;
}

proof fn lemma_set_bit(w: u64, k: u64, j: u64)
    requires
        k < 64,
        j < 64,
    ensures
        ((w | (1u64 << k)) >> j) & 1u64 == if j == k { 1u64 } else { (w >> j) & 1u64 },
{
    assert(((w | (1u64 << k)) >> j) & 1u64 == if j == k { 1u64 } else { (w >> j) & 1u64 }) by (bit_vector)
        requires
            k < 64,
            j < 64,
    ;
}

proof fn lemma_clear_bit(w: u64, k: u64, j: u64)
    requires
        k < 64,
        j < 64,
        (w >> k) & 1u64 == 1u64,
    ensures
        w >= (1u64 << k),
        ((w - (1u64 << k)) as u64 >> j) & 1u64 == if j == k { 0u64 } else { (w >> j) & 1u64 },
{
    assert(w >= (1u64 << k)) by (bit_vector)
        requires
            k < 64,
            (w >> k) & 1u64 == 1u64,
    ;
    assert((((w - (1u64 << k)) as u64) >> j) & 1u64 == if j == k { 0u64 } else { (w >> j) & 1u64 })
        by (bit_vector)
        requires
            k < 64,
            j < 64,
            (w >> k) & 1u64 == 1u64,
    ;
}

/// A bitmap that occupies `blocks` blocks from block `start_block_id` on.
pub struct Bitmap {
    start_block_id: usize,
    blocks: usize,
}

impl Bitmap {
    /// First block of the bitmap.
    pub closed spec fn start(&self) -> int {
        self.start_block_id as int
    }

    /// Number of blocks of the bitmap.
    pub closed spec fn len_blocks(&self) -> int {
        self.blocks as int
    }

    /// Number of bits the bitmap holds.
    pub open spec fn capacity(&self) -> int {
        self.len_blocks() * BLOCK_BITS
    }

    /// Index in the cache of the word that holds bit `bit` of the bitmap.
    pub open spec fn word_of(&self, bit: int) -> int {
        self.start() * 64 + bit / 64
    }

    /// Whether bit `bit` of the bitmap is set in `words`.
    pub open spec fn used(&self, words: Seq<u64>, bit: int) -> bool {
        bit_set(words, self.word_of(bit), bit % 64)
    }

    /// The bitmap fits in `words` and its bit numbers fit in a `usize`.
    pub open spec fn fits(&self, words: Seq<u64>) -> bool {
        &&& (self.start() + self.len_blocks()) * 64 <= words.len()
        &&& self.capacity() <= usize::MAX
    }

    /// A bitmap over `blocks` blocks from block `start_block_id` on.
    pub fn new(start_block_id: usize, blocks: usize) -> (r: Bitmap)
        ensures
            r.start() == start_block_id,
            r.len_blocks() == blocks,
    {
        Bitmap { start_block_id, blocks }
    }

    /// Set the first clear bit and return its number, or `None` when every bit is set.
    pub fn allocate(&self, cache: &mut BlockCache) -> (r: Option<usize>)
        requires
            self.fits(old(cache).words@),
        ensures
            match r {
                Some(bit) => {
                    &&& bit < self.capacity()
                    &&& !self.used(old(cache).words@, bit as int)
                    &&& forall|b: int| 0 <= b < bit ==> self.used(old(cache).words@, b)
                    &&& with_bit(old(cache).words@, self.word_of(bit as int), (bit % 64) as int, true, final(cache).words@)
                    &&& final(cache).words@ == old(cache).words@.update(
                        self.word_of(bit as int),
                        set_bit(old(cache).words@[self.word_of(bit as int)], (bit % 64) as int),
                    )
                },
                None => {
                    &&& forall|b: int| 0 <= b < self.capacity() ==> self.used(old(cache).words@, b)
                    &&& final(cache).words@ == old(cache).words@
                },
            },
    {
        let ghost w0 = cache.words@;
        let n = cache.words.len();
        let mut block_id: usize = 0;
        while block_id < self.blocks
            invariant
                n == w0.len(),
                self.fits(w0),
                cache.words@ == w0,
                old(cache).words@ == w0,
                block_id <= self.blocks,
                forall|b: int| 0 <= b < block_id * BLOCK_BITS ==> self.used(w0, b),
            decreases self.blocks - block_id,
        {
            proof {
                assert((block_id + self.start()) * 64 + 64 <= (self.start() + self.len_blocks()) * 64) by (nonlinear_arith)
                    requires
                        block_id < self.len_blocks(),
                ;
                assert(block_id * 4096 + 4096 <= self.len_blocks() * 4096) by (nonlinear_arith)
                    requires
                        block_id < self.len_blocks(),
                ;
            }
            let base = (block_id + self.start_block_id) * BLOCK_WORDS;
            let mut j: usize = 0;
            while j < BLOCK_WORDS
                invariant
                    self.fits(w0),
                    cache.words@ == w0,
                    old(cache).words@ == w0,
                    block_id < self.blocks,
                    base == (block_id + self.start()) * 64,
                    base + 64 <= w0.len(),
                    block_id * 4096 + 4096 <= self.capacity(),
                    j <= 64,
                    forall|b: int| 0 <= b < block_id * BLOCK_BITS + j * 64 ==> self.used(w0, b),
                decreases 64 - j,
            {
                let word = cache.words[base + j];
                if word != u64::MAX {
                    let inner = word.trailing_ones() as usize;
                    proof {
                        axiom_u64_trailing_ones(word);
                    }
                    let bit = block_id * BLOCK_BITS + j * 64 + inner;
                    proof {
                        assert(bit / 64 == block_id * 64 + j && bit % 64 == inner) by (nonlinear_arith)
                            requires
                                bit == block_id * 4096 + j * 64 + inner,
                                inner < 64,
                        ;
                        assert(self.word_of(bit as int) == base + j) by (nonlinear_arith)
                            requires
                                base == (block_id + self.start()) * 64,
                                self.word_of(bit as int) == self.start() * 64 + bit / 64,
                                bit / 64 == block_id * 64 + j,
                        ;
                        assert forall|b: int| 0 <= b < bit implies self.used(w0, b) by {
                            if b >= block_id * 4096 + j * 64 {
                                let k = b - (block_id * 4096 + j * 64);
                                assert(b / 64 == block_id * 64 + j && b % 64 == k) by (nonlinear_arith)
                                    requires
                                        b == block_id * 4096 + j * 64 + k,
                                        0 <= k < 64,
                                ;
                                assert((word >> (k as u64)) & 1u64 == 1u64);
                            }
                        }
                    }
                    let new_word = word | (1u64 << (inner as u64));
                    cache.words.set(base + j, new_word);
                    proof {
                        let after = cache.words@;
                        assert forall|q: int| 0 <= q < 64 && q != inner implies (#[trigger] bit_set(after, base + j, q)
                            <==> bit_set(w0, base + j, q)) by {
                            lemma_set_bit(word, inner as u64, q as u64);
                        }
                        lemma_set_bit(word, inner as u64, inner as u64);
                        assert((word >> (inner as u64)) & 1u64 == 0u64);
                        assert(!self.used(w0, bit as int));
                        assert(after.len() == w0.len());
                        assert(bit_set(after, base + j, inner as int));
                        assert(forall|i: int| 0 <= i < w0.len() && i != base + j ==> after[i] == w0[i]);
                        assert(with_bit(w0, base + j, inner as int, true, after));
                        assert(bit < self.capacity());
                        assert(forall|b: int| 0 <= b < bit ==> self.used(w0, b));
                        assert(with_bit(w0, self.word_of(bit as int), (bit % 64) as int, true, after));
                    }
                    return Some(bit);
                }
                proof {
                    assert forall|b: int| 0 <= b < block_id * BLOCK_BITS + (j + 1) * 64 implies self.used(w0, b) by {
                        if b >= block_id * 4096 + j * 64 {
                            let k = b - (block_id * 4096 + j * 64);
                            assert(b / 64 == block_id * 64 + j && b % 64 == k) by (nonlinear_arith)
                                requires
                                    b == block_id * 4096 + j * 64 + k,
                                    0 <= k < 64,
                            ;
                            assert(self.word_of(b) == base + j) by (nonlinear_arith)
                                requires
                                    base == (block_id + self.start()) * 64,
                                    self.word_of(b) == self.start() * 64 + b / 64,
                                    b / 64 == block_id * 64 + j,
                            ;
                            lemma_full_word(word, k as u64);
                        }
                    }
                }
                j = j + 1;
            }
            block_id = block_id + 1;
        }
        None
    }

    /// Clear bit `bit`, which must be set.
    pub fn dealloc(&self, cache: &mut BlockCache, bit: usize)
        requires
            self.fits(old(cache).words@),
            bit < self.capacity(),
            self.used(old(cache).words@, bit as int),
        ensures
            with_bit(old(cache).words@, self.word_of(bit as int), (bit % 64) as int, false, final(cache).words@),
            final(cache).words@ == old(cache).words@.update(
                self.word_of(bit as int),
                clear_bit(old(cache).words@[self.word_of(bit as int)], (bit % 64) as int),
            ),
    {
        let ghost w0 = cache.words@;
        let n = cache.words.len();
        let (block_pos, bits64_pos, inner_pos) = decomposition(bit);
        proof {
            assert(block_pos < self.len_blocks()) by (nonlinear_arith)
                requires
                    block_pos == bit / 4096,
                    bit < self.len_blocks() * 4096,
            ;
            assert((block_pos + self.start()) * 64 + 64 <= (self.start() + self.len_blocks()) * 64) by (nonlinear_arith)
                requires
                    block_pos < self.len_blocks(),
            ;
        }
        let idx = (block_pos + self.start_block_id) * BLOCK_WORDS + bits64_pos;
        let word = cache.words[idx];
        proof {
            lemma_clear_bit(word, inner_pos as u64, 0);
        }
        let new_word = word - (1u64 << (inner_pos as u64));
        cache.words.set(idx, new_word);
        proof {
            let after = cache.words@;
            assert forall|q: int| 0 <= q < 64 && q != inner_pos implies (#[trigger] bit_set(after, idx as int, q)
                <==> bit_set(w0, idx as int, q)) by {
                lemma_clear_bit(word, inner_pos as u64, q as u64);
            }
            lemma_clear_bit(word, inner_pos as u64, inner_pos as u64);
        }
    }

    /// Number of bits the bitmap holds.
    pub fn maximum(&self) -> (r: usize)
        requires
            self.capacity() <= usize::MAX,
        ensures
            r == self.capacity(),
    {
        self.blocks * BLOCK_BITS
    }
}

/// Freeing the bit that an allocation set gives back the words as they were.
pub proof fn lemma_dealloc_undoes_allocate(words: Seq<u64>, w: int, k: int)
    requires
        0 <= w < words.len(),
        0 <= k < 64,
        !bit_set(words, w, k),
    ensures
        ({
            let set = words.update(w, set_bit(words[w], k));
            set.update(w, clear_bit(set[w], k)) == words
        }),
{
    let x = words[w];
    let kk = k as u64;
    assert(((x | (1u64 << kk)) - (1u64 << kk)) as u64 == x) by (bit_vector)
        requires
            kk < 64,
            (x >> kk) & 1u64 != 1u64,
    ;
    let set = words.update(w, set_bit(words[w], k));
    assert(set.update(w, clear_bit(set[w], k)) =~= words);
}

} // verus!
