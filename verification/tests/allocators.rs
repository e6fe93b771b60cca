use os::bitmap::{decomposition, Bitmap, BlockCache, BLOCK_BITS};
use os::config::{KERNEL_STACK_SIZE, PAGE_SIZE, TRAMPOLINE, TRAP_CONTEXT_SIZE, USER_STACK_SIZE};
use os::pid::{
    kernel_stack_position, pid_alloc, user_stack_position, user_trap_cx_position, KernelStack,
    RecycleAllocator,
};

#[test]
fn recycle_allocator_hands_out_fresh_values_in_order() {
    let mut a = RecycleAllocator::new();
    assert_eq!(a.allocate(), 0);
    assert_eq!(a.allocate(), 1);
    assert_eq!(a.allocate(), 2);
}

#[test]
fn recycle_allocator_reuses_the_last_released_value_first() {
    let mut a = RecycleAllocator::new();
    for _ in 0..4 {
        a.allocate();
    }
    a.dealloc(1);
    a.dealloc(3);
    assert_eq!(a.allocate(), 3);
    assert_eq!(a.allocate(), 1);
    assert_eq!(a.allocate(), 4);
}

#[test]
fn pid_alloc_wraps_the_allocated_value() {
    let mut a = RecycleAllocator::new();
    assert_eq!(pid_alloc(&mut a).0, 0);
    assert_eq!(pid_alloc(&mut a).0, 1);
    a.dealloc(0);
    assert_eq!(pid_alloc(&mut a).0, 0);
}

#[test]
fn kernel_stacks_are_counted_down_from_the_trampoline() {
    let (bottom0, top0) = kernel_stack_position(0);
    assert_eq!(top0, TRAMPOLINE);
    assert_eq!(bottom0, TRAMPOLINE - KERNEL_STACK_SIZE);
    let (bottom1, top1) = kernel_stack_position(1);
    assert_eq!(top1, TRAMPOLINE - KERNEL_STACK_SIZE - PAGE_SIZE);
    assert_eq!(bottom1, top1 - KERNEL_STACK_SIZE);
    assert!(top1 + PAGE_SIZE <= bottom0);
    assert_eq!(KernelStack(1).get_top(), top1);
}

#[test]
fn user_stacks_sit_below_their_trap_contexts() {
    let (b0, t0) = user_stack_position(0);
    assert_eq!(t0, TRAMPOLINE - TRAP_CONTEXT_SIZE);
    assert_eq!(b0, t0 - USER_STACK_SIZE);
    let (cb0, ct0) = user_trap_cx_position(0);
    assert_eq!(cb0, t0);
    assert_eq!(ct0, TRAMPOLINE);
    let (b1, t1) = user_stack_position(1);
    assert_eq!(t1, t0 - (USER_STACK_SIZE + TRAP_CONTEXT_SIZE + PAGE_SIZE));
    assert_eq!(b1, t1 - USER_STACK_SIZE);
    let (cb1, ct1) = user_trap_cx_position(1);
    assert!(ct1 + PAGE_SIZE <= b0);
    assert_eq!(cb1, t1);
}

#[test]
fn decomposition_splits_a_bit_number() {
    assert_eq!(decomposition(0), (0, 0, 0));
    assert_eq!(decomposition(BLOCK_BITS + 130), (1, 2, 2));
    assert_eq!(decomposition(4095), (0, 63, 63));
}

#[test]
fn bitmap_allocates_the_first_clear_bit() {
    let mut cache = BlockCache::new(3);
    let bm = Bitmap::new(1, 2);
    assert_eq!(bm.maximum(), 2 * BLOCK_BITS);
    assert_eq!(bm.allocate(&mut cache), Some(0));
    assert_eq!(bm.allocate(&mut cache), Some(1));
    assert_eq!(bm.allocate(&mut cache), Some(2));
    assert_eq!(cache.words[64], 0b111);
    assert_eq!(cache.words[0], 0);
    bm.dealloc(&mut cache, 1);
    assert_eq!(cache.words[64], 0b101);
    assert_eq!(bm.allocate(&mut cache), Some(1));
    assert_eq!(bm.allocate(&mut cache), Some(3));
}

#[test]
fn bitmap_reports_full_when_every_bit_is_set() {
    let mut cache = BlockCache::new(1);
    let bm = Bitmap::new(0, 1);
    for w in cache.words.iter_mut() {
        *w = u64::MAX;
    }
    assert_eq!(bm.allocate(&mut cache), None);
    bm.dealloc(&mut cache, 4095);
    assert_eq!(bm.allocate(&mut cache), Some(4095));
    assert_eq!(bm.allocate(&mut cache), None);
}

#[test]
fn bitmap_dealloc_undoes_allocate() {
    let mut cache = BlockCache::new(1);
    let bm = Bitmap::new(0, 1);
    cache.words[0] = 0b1011;
    let before = cache.words.clone();
    let bit = bm.allocate(&mut cache).unwrap();
    assert_eq!(bit, 2);
    bm.dealloc(&mut cache, bit);
    assert_eq!(cache.words, before);
}
