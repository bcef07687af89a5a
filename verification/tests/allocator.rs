use cs140e::allocator::bin::Allocator as BinAllocator;
use cs140e::allocator::bump::Allocator as BumpAllocator;
use cs140e::allocator::util::{
    align_down, align_up, is_power_of_two, log2_exact, next_power_of_two,
};
use cs140e::allocator::{AllocErr, Layout};

fn layout(size: usize, align: usize) -> Layout {
    Layout::from_size_align(size, align).unwrap()
}

/// The bins of a fresh allocator over `[0x1000, 0x2000)`: one 4 KiB block.
fn initial_lists() -> Vec<Vec<usize>> {
    let mut lists = vec![Vec::new(); 32];
    lists[12].push(0x1000);
    lists
}

#[test]
fn align_down_examples() {
    assert_eq!(align_down(0, 2), 0);
    assert_eq!(align_down(0x1234, 0x100), 0x1200);
    assert_eq!(align_down(0x1200, 0x100), 0x1200);
    assert_eq!(align_down(usize::MAX, 1 << 4), usize::MAX - 15);
}

#[test]
fn align_up_examples() {
    assert_eq!(align_up(0, 2), 0);
    assert_eq!(align_up(0x1234, 0x100), 0x1300);
    assert_eq!(align_up(0x1200, 0x100), 0x1200);
    assert_eq!(align_up(7, 1), 7);
}

#[test]
fn power_of_two_helpers() {
    assert!(is_power_of_two(1));
    assert!(is_power_of_two(64));
    assert!(!is_power_of_two(0));
    assert!(!is_power_of_two(96));
    assert_eq!(next_power_of_two(0), 1);
    assert_eq!(next_power_of_two(5), 8);
    assert_eq!(next_power_of_two(8), 8);
    assert_eq!(log2_exact(1), 0);
    assert_eq!(log2_exact(64), 6);
}

#[test]
fn layouts() {
    let l = layout(24, 8);
    assert_eq!((l.size(), l.align()), (24, 8));
    assert!(Layout::from_size_align(8, 3).is_none());
    assert!(Layout::from_size_align(8, 0).is_none());
    assert!(Layout::from_size_align(isize::MAX as usize, 2).is_none());
    assert!(Layout::from_size_align(0, 1).is_some());
}

#[test]
fn bump_allocates_upwards() {
    let mut a = BumpAllocator::new(0x100, 0x200);
    assert_eq!(a.allocate(layout(16, 32)).unwrap(), 0x100);
    assert_eq!(a.allocate(layout(8, 64)).unwrap(), 0x140);
    match a.allocate(layout(0x100, 8)) {
        Err(AllocErr::Exhausted { request }) => assert_eq!(request, layout(0x100, 8)),
        other => panic!("unexpected {:?}", other),
    }
    assert_eq!(a.allocate(layout(8, 8)).unwrap(), 0x148);
    assert!(matches!(a.allocate(layout(0, 8)), Err(AllocErr::Unsupported { .. })));
    a.dealloc(0x100, layout(16, 32));
    assert_eq!(a.allocate(layout(8, 8)).unwrap(), 0x150);
}

#[test]
fn bump_block_may_end_at_the_region_end() {
    let mut a = BumpAllocator::new(0x1000, 0x1010);
    assert_eq!(a.allocate(layout(16, 1)).unwrap(), 0x1000);
    assert!(matches!(a.allocate(layout(1, 1)), Err(AllocErr::Exhausted { .. })));
    let mut b = BumpAllocator::new(0, 16);
    assert!(matches!(b.allocate(layout(17, 1)), Err(AllocErr::Exhausted { .. })));
    assert_eq!(b.allocate(layout(15, 1)).unwrap(), 0);
    assert_eq!(b.allocate(layout(1, 1)).unwrap(), 15);
}

#[test]
fn bump_refuses_a_block_past_the_address_space() {
    let mut a = BumpAllocator::new(usize::MAX - 4, usize::MAX);
    assert!(matches!(a.allocate(layout(8, 1)), Err(AllocErr::Exhausted { .. })));
    assert_eq!(a.allocate(layout(4, 1)).unwrap(), usize::MAX - 4);
}

#[test]
fn bin_allocator_fills_its_bins() {
    let a = BinAllocator::new(0x1000, 0x2000);
    assert_eq!(a.total(), 4096);
    assert_eq!(a.allocated(), 0);
    assert_eq!(a.free_lists(), &initial_lists());
}

#[test]
fn bin_allocate_then_free_restores_the_bins() {
    let mut a = BinAllocator::new(0x1000, 0x2000);
    let l = layout(100, 8);
    let p = a.allocate(l).unwrap();
    assert_eq!(p, 0x1000);
    assert_eq!(a.allocated(), 128);
    // the 4 KiB block was split down: bins 7 to 11 hold the upper halves
    for k in 7..12 {
        assert_eq!(a.free_lists()[k], vec![0x1000 + (1 << k)]);
    }
    assert!(a.free_lists()[12].is_empty());
    a.dealloc(p, l);
    assert_eq!(a.allocated(), 0);
    assert_eq!(a.free_lists(), &initial_lists());
}

#[test]
fn bin_splits_and_merges_buddies() {
    let mut a = BinAllocator::new(0x1000, 0x2000);
    let l = layout(8, 8);
    let p = a.allocate(l).unwrap();
    assert_eq!(p, 0x1000);
    assert_eq!(a.free_lists()[3], vec![0x1008]);
    // the next 8-byte block is the buddy left in bin 3
    let q = a.allocate(l).unwrap();
    assert_eq!(q, 0x1008);
    assert!(a.free_lists()[3].is_empty());
    assert_eq!(a.free_lists()[4], vec![0x1010]);
    assert_eq!(a.allocated(), 16);
    // its buddy is still allocated: no merge
    a.dealloc(q, l);
    assert_eq!(a.free_lists()[3], vec![0x1008]);
    // freeing the other merges every level back into the 4 KiB block
    a.dealloc(p, l);
    assert_eq!(a.free_lists(), &initial_lists());
    assert_eq!(a.total(), 4096);
    assert_eq!(a.allocated(), 0);
}

#[test]
fn bin_serves_its_whole_fresh_region() {
    let mut a = BinAllocator::new(64, 128);
    assert_eq!(a.total(), 64);
    assert_eq!(a.allocate(layout(64, 64)).unwrap(), 64);
    assert!(matches!(a.allocate(layout(8, 8)), Err(AllocErr::Exhausted { .. })));
}

#[test]
fn bin_carving_follows_alignment() {
    // 0x1800 is 2 KiB-aligned: its chunk is 2 KiB, then 1 KiB at 0x2000 is
    // limited by what is left
    let a = BinAllocator::new(0x1800, 0x2400);
    let mut expect = vec![Vec::new(); 32];
    expect[11].push(0x1800);
    expect[10].push(0x2000);
    assert_eq!(a.free_lists(), &expect);
    assert_eq!(a.total(), 0xC00);
}

#[test]
fn bin_blocks_do_not_overlap_and_are_aligned() {
    let mut a = BinAllocator::new(0x1000, 0x2000);
    let mut got: Vec<(usize, usize)> = Vec::new();
    for (size, align) in [(24, 8), (64, 64), (3, 1), (200, 16), (8, 32), (500, 8)] {
        let l = layout(size, align);
        let p = a.allocate(l).unwrap();
        assert_eq!(p % align, 0);
        assert!(p >= 0x1000 && p + size <= 0x2000);
        got.push((p, size));
    }
    for i in 0..got.len() {
        for j in 0..got.len() {
            if i != j {
                let (a0, s0) = got[i];
                let (b0, s1) = got[j];
                assert!(a0 + s0 <= b0 || b0 + s1 <= a0);
            }
        }
    }
}

#[test]
fn bin_exhausted_and_unsupported() {
    let mut a = BinAllocator::new(0x1000, 0x2000);
    match a.allocate(layout(8192, 8)) {
        Err(AllocErr::Exhausted { request }) => assert_eq!(request, layout(8192, 8)),
        other => panic!("unexpected {:?}", other),
    }
    assert!(matches!(a.allocate(layout(0, 8)), Err(AllocErr::Unsupported { .. })));
    assert_eq!(a.free_lists(), &initial_lists());
}

#[test]
fn bin_allocator_on_an_empty_region() {
    let mut a = BinAllocator::new(0x1000, 0x1004);
    assert_eq!(a.total(), 0);
    assert!(matches!(a.allocate(layout(1, 1)), Err(AllocErr::Exhausted { .. })));
}

#[test]
fn bin_allocator_spans_more_than_four_gib() {
    // [1, 2^32 + 1) holds no 4 GiB-aligned 4 GiB block: its chunks are
    // 1, 2, 4, ... bytes up to 2^31 at 2^31; the one byte left at 2^32 is
    // under the smallest chunk
    let start: u64 = 1;
    let end: u64 = (1u64 << 32) + 1;
    let mut a = BinAllocator::new(start as usize, end as usize);
    assert_eq!(a.total() as u64, (1u64 << 32) - 1);
    assert_eq!(a.free_lists()[31], vec![1usize << 31]);
    assert_eq!(a.free_lists()[0].len(), 1);
    let p = a.allocate(layout(1 << 31, 8)).unwrap();
    assert_eq!(p, 1usize << 31);
}
