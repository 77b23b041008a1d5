use core::mem::size_of;

use heap_block::{AllocError, HeapBlock, Hole, InvalidDeallocation, Layout};
use typenum::{Unsigned, U4096};

const WORD: usize = size_of::<usize>();
const HEADER: usize = 3 * WORD;
const MIN: usize = 2 * WORD;
const BASE: usize = 0x10_0000;

fn holes(block: &HeapBlock) -> Vec<(usize, usize)> {
    let mut found = Vec::new();
    let mut hole: &Hole = &block.first;
    while let Some(next) = hole.next.as_ref() {
        found.push((next.addr, next.size));
        hole = next;
    }
    found
}

fn layout(size: usize, align: usize) -> Layout {
    Layout::from_size_align(size, align).unwrap()
}

#[test]
fn heapblock_new() {
    let mut block = [0u8; 4096];
    let addr = block[..].as_mut_ptr() as usize;
    let block = HeapBlock::new(addr, U4096::to_usize());

    assert_eq!(block.first.size, 0);
    assert!(block.first.next.is_some());
    assert!(block.first.next.as_ref().unwrap().next.is_none());
}

#[test]
fn heapblock_alloc_dealloc() {
    let mut block = [0u8; 4096];
    let addr = block.as_mut().as_mut_ptr() as usize;
    let mut block = HeapBlock::new(addr, U4096::to_usize());
    let layout = Layout::from_size_align(32, 1).unwrap();

    if let Ok(alloc) = block.allocate_first_fit(layout) {
        assert_eq!(alloc, addr + HEADER);
        assert_eq!(block.deallocate(alloc, Layout::from_size_align(32, 1).unwrap()), Ok(()));
    } else {
        panic!("Could not allocate block.")
    }

    if let Ok(alloc) = block.allocate_first_fit(layout) {
        assert_eq!(alloc, addr + HEADER);
    } else {
        panic!("Could not allocate block.")
    }
}

#[test]
fn min_size_is_two_words() {
    assert_eq!(HeapBlock::min_size(), 2 * size_of::<usize>());
}

#[test]
fn header_size_is_three_words() {
    assert_eq!(HeapBlock::header_size(), 3 * size_of::<usize>());
}

#[test]
fn new_block_is_one_hole_behind_the_header() {
    let block = HeapBlock::new(BASE, 4096);
    assert_eq!(block.base, BASE);
    assert_eq!(block.capacity, 4096);
    assert!(block.next.is_none());
    assert_eq!(block.first.addr, 0);
    assert_eq!(block.first.size, 0);
    assert_eq!(holes(&block), vec![(BASE + HEADER, 4096 - HEADER)]);
}

#[test]
fn new_block_of_header_size_has_an_empty_hole() {
    let block = HeapBlock::new(BASE, HEADER);
    assert_eq!(holes(&block), vec![(BASE + HEADER, 0)]);
}

#[test]
fn block_too_small_for_a_fragment_serves_nothing() {
    let mut block = HeapBlock::new(BASE, HEADER + MIN - 1);
    assert_eq!(block.allocate_first_fit(layout(MIN, 1)), Err(AllocError));
    assert_eq!(holes(&block), vec![(BASE + HEADER, MIN - 1)]);
}

#[test]
fn allocation_takes_the_start_of_the_hole() {
    let mut block = HeapBlock::new(BASE, 4096);
    assert_eq!(block.allocate_first_fit(layout(32, 1)), Ok(BASE + HEADER));
    assert_eq!(holes(&block), vec![(BASE + HEADER + 32, 4096 - HEADER - 32)]);
    assert_eq!(block.allocate_first_fit(layout(64, 1)), Ok(BASE + HEADER + 32));
    assert_eq!(holes(&block), vec![(BASE + HEADER + 96, 4096 - HEADER - 96)]);
}

#[test]
fn allocation_of_the_whole_hole_leaves_no_hole() {
    let mut block = HeapBlock::new(BASE, 4096);
    assert_eq!(block.allocate_first_fit(layout(4096 - HEADER, 1)), Ok(BASE + HEADER));
    assert_eq!(holes(&block), vec![]);
    assert_eq!(block.allocate_first_fit(layout(MIN, 1)), Err(AllocError));
    assert_eq!(block.deallocate(BASE + HEADER, layout(4096 - HEADER, 1)), Ok(()));
    assert_eq!(holes(&block), vec![(BASE + HEADER, 4096 - HEADER)]);
}

#[test]
fn remainder_below_the_minimum_rejects_the_hole() {
    let mut block = HeapBlock::new(BASE, 4096);
    // One byte short of the whole hole would leave a sliver of one byte.
    assert_eq!(block.allocate_first_fit(layout(4096 - HEADER - 1, 1)), Err(AllocError));
    assert_eq!(block.allocate_first_fit(layout(4096 - HEADER - MIN + 1, 1)), Err(AllocError));
    assert_eq!(holes(&block), vec![(BASE + HEADER, 4096 - HEADER)]);
    // A remainder of exactly the minimum is a hole.
    assert_eq!(block.allocate_first_fit(layout(4096 - HEADER - MIN, 1)), Ok(BASE + HEADER));
    assert_eq!(holes(&block), vec![(BASE + 4096 - MIN, MIN)]);
}

#[test]
fn out_of_capacity_fails_and_changes_nothing() {
    let mut block = HeapBlock::new(BASE, 4096);
    assert_eq!(block.allocate_first_fit(layout(4096, 1)), Err(AllocError));
    assert_eq!(block.allocate_first_fit(layout(4096 - HEADER + 1, 1)), Err(AllocError));
    assert_eq!(block.allocate_first_fit(layout(1 << 20, 8)), Err(AllocError));
    assert_eq!(holes(&block), vec![(BASE + HEADER, 4096 - HEADER)]);
    // more than is free in all, though less than the capacity
    assert_eq!(block.allocate_first_fit(layout(4000, 1)), Ok(BASE + HEADER));
    assert_eq!(block.allocate_first_fit(layout(4096 - HEADER - 4000 + 1, 1)), Err(AllocError));
    assert_eq!(holes(&block), vec![(BASE + HEADER + 4000, 4096 - HEADER - 4000)]);
}

#[test]
fn reuse_is_stable() {
    let mut block = HeapBlock::new(BASE, 4096);
    let x = block.allocate_first_fit(layout(32, 1)).unwrap();
    assert_eq!(block.deallocate(x, layout(32, 1)), Ok(()));
    assert_eq!(holes(&block), vec![(BASE + HEADER, 4096 - HEADER)]);
    assert_eq!(block.allocate_first_fit(layout(32, 1)), Ok(x));
}

#[test]
fn release_in_allocation_order_restores_the_hole() {
    let mut block = HeapBlock::new(BASE, 4096);
    let a = block.allocate_first_fit(layout(128, 1)).unwrap();
    let b = block.allocate_first_fit(layout(128, 1)).unwrap();
    assert_eq!((a, b), (BASE + HEADER, BASE + HEADER + 128));
    assert_eq!(block.deallocate(a, layout(128, 1)), Ok(()));
    assert_eq!(
        holes(&block),
        vec![(BASE + HEADER, 128), (BASE + HEADER + 256, 4096 - HEADER - 256)]
    );
    assert_eq!(block.deallocate(b, layout(128, 1)), Ok(()));
    assert_eq!(holes(&block), vec![(BASE + HEADER, 4096 - HEADER)]);
}

#[test]
fn release_in_reverse_order_restores_the_hole() {
    let mut block = HeapBlock::new(BASE, 4096);
    let a = block.allocate_first_fit(layout(128, 1)).unwrap();
    let b = block.allocate_first_fit(layout(128, 1)).unwrap();
    assert_eq!(block.deallocate(b, layout(128, 1)), Ok(()));
    assert_eq!(holes(&block), vec![(BASE + HEADER + 128, 4096 - HEADER - 128)]);
    assert_eq!(block.deallocate(a, layout(128, 1)), Ok(()));
    assert_eq!(holes(&block), vec![(BASE + HEADER, 4096 - HEADER)]);
}

#[test]
fn freed_memory_between_allocations_fills_the_gap() {
    let mut block = HeapBlock::new(BASE, 4096);
    let a = block.allocate_first_fit(layout(64, 1)).unwrap();
    let b = block.allocate_first_fit(layout(64, 1)).unwrap();
    let c = block.allocate_first_fit(layout(64, 1)).unwrap();
    let d = block.allocate_first_fit(layout(64, 1)).unwrap();
    let rest = (BASE + HEADER + 256, 4096 - HEADER - 256);
    assert_eq!(block.deallocate(a, layout(64, 1)), Ok(()));
    assert_eq!(block.deallocate(c, layout(64, 1)), Ok(()));
    assert_eq!(holes(&block), vec![(a, 64), (c, 64), rest]);
    // `b` lies between the holes `a` and `c` and touches both.
    assert_eq!(block.deallocate(b, layout(64, 1)), Ok(()));
    assert_eq!(holes(&block), vec![(a, 192), rest]);
    // `d` lies between that hole and the rest, and touches both.
    assert_eq!(block.deallocate(d, layout(64, 1)), Ok(()));
    assert_eq!(holes(&block), vec![(BASE + HEADER, 4096 - HEADER)]);
}

#[test]
fn first_fit_takes_the_lowest_hole_that_is_large_enough() {
    let mut block = HeapBlock::new(BASE, 4096);
    let a = block.allocate_first_fit(layout(64, 1)).unwrap();
    let _b = block.allocate_first_fit(layout(64, 1)).unwrap();
    let c = block.allocate_first_fit(layout(256, 1)).unwrap();
    let _d = block.allocate_first_fit(layout(64, 1)).unwrap();
    assert_eq!(block.deallocate(a, layout(64, 1)), Ok(()));
    assert_eq!(block.deallocate(c, layout(256, 1)), Ok(()));
    // The hole at `a` is too small for 128 bytes, the hole at `c` is the first that fits.
    assert_eq!(block.allocate_first_fit(layout(128, 1)), Ok(c));
    assert_eq!(
        holes(&block),
        vec![(a, 64), (c + 128, 128), (BASE + HEADER + 448, 4096 - HEADER - 448)]
    );
    // 64 bytes fit into the hole at `a` exactly.
    assert_eq!(block.allocate_first_fit(layout(64, 1)), Ok(a));
    assert_eq!(holes(&block), vec![(c + 128, 128), (BASE + HEADER + 448, 4096 - HEADER - 448)]);
}

#[test]
fn aligned_allocation_leaves_a_front_padding() {
    // The first hole starts at BASE + HEADER, which is no multiple of 256.
    let mut block = HeapBlock::new(BASE, 4096);
    let start = BASE + HEADER;
    let addr = block.allocate_first_fit(layout(512, 256)).unwrap();
    assert_eq!(addr, BASE + 256);
    assert_eq!(addr % 256, 0);
    assert_eq!(holes(&block), vec![(start, addr - start), (addr + 512, BASE + 4096 - addr - 512)]);
    // The padding is free memory like any other: it serves a request ...
    assert_eq!(block.allocate_first_fit(layout(32, 1)), Ok(start));
    assert_eq!(
        holes(&block),
        vec![(start + 32, addr - start - 32), (addr + 512, BASE + 4096 - addr - 512)]
    );
    // ... and is fused with what is given back around it.
    assert_eq!(block.deallocate(start, layout(32, 1)), Ok(()));
    assert_eq!(block.deallocate(addr, layout(512, 256)), Ok(()));
    assert_eq!(holes(&block), vec![(start, 4096 - HEADER)]);
}

#[test]
fn alignment_skips_a_minimal_fragment_before_aligning() {
    // The hole starts one word before a multiple of 64. That multiple is too near: the
    // padding before it would be smaller than a minimal fragment. The allocation goes to
    // the first multiple of 64 that is a minimal fragment or more away.
    let start = BASE + 64 - WORD;
    let mut block = HeapBlock::new(start - HEADER, 4096);
    assert_eq!(block.allocate_first_fit(layout(64, 64)), Ok(BASE + 128));
    assert_eq!(
        holes(&block),
        vec![(start, WORD + 64), (BASE + 192, start - HEADER + 4096 - BASE - 192)]
    );
}

#[test]
fn alignment_to_a_multiple_a_minimal_fragment_away() {
    let start = BASE + 64 - MIN;
    let mut block = HeapBlock::new(start - HEADER, 4096);
    assert_eq!(block.allocate_first_fit(layout(64, 64)), Ok(BASE + 64));
    assert_eq!(holes(&block)[0], (start, MIN));
}

#[test]
fn aligned_hole_needs_no_padding() {
    let mut block = HeapBlock::new(BASE - HEADER, 4096);
    assert_eq!(block.allocate_first_fit(layout(64, 4096)), Ok(BASE));
    assert_eq!(holes(&block), vec![(BASE + 64, 4096 - HEADER - 64)]);
}

#[test]
fn double_free_is_an_error() {
    let mut block = HeapBlock::new(BASE, 4096);
    let a = block.allocate_first_fit(layout(64, 1)).unwrap();
    let _b = block.allocate_first_fit(layout(64, 1)).unwrap();
    assert_eq!(block.deallocate(a, layout(64, 1)), Ok(()));
    let before = holes(&block);
    assert_eq!(block.deallocate(a, layout(64, 1)), Err(InvalidDeallocation));
    assert_eq!(holes(&block), before);
    // the error does not harm the block
    assert_eq!(block.allocate_first_fit(layout(64, 1)), Ok(a));
}

#[test]
fn free_of_memory_inside_a_hole_is_an_error() {
    let mut block = HeapBlock::new(BASE, 4096);
    let before = holes(&block);
    assert_eq!(block.deallocate(BASE + HEADER, layout(32, 1)), Err(InvalidDeallocation));
    assert_eq!(block.deallocate(BASE + HEADER + 100, layout(32, 1)), Err(InvalidDeallocation));
    assert_eq!(block.deallocate(BASE + 4096 - 32, layout(32, 1)), Err(InvalidDeallocation));
    assert_eq!(holes(&block), before);
}

#[test]
fn free_of_memory_that_runs_into_a_hole_is_an_error() {
    let mut block = HeapBlock::new(BASE, 4096);
    let a = block.allocate_first_fit(layout(64, 1)).unwrap();
    let b = block.allocate_first_fit(layout(64, 1)).unwrap();
    let before = holes(&block);
    // begins in `b`, ends in the hole behind `b`
    assert_eq!(block.deallocate(b + 32, layout(64, 1)), Err(InvalidDeallocation));
    assert_eq!(holes(&block), before);
    assert_eq!(block.deallocate(a, layout(64, 1)), Ok(()));
    let before = holes(&block);
    // begins at the end of the hole at `a`, ends in the hole behind `b`
    assert_eq!(block.deallocate(b, layout(128, 1)), Err(InvalidDeallocation));
    // begins in the hole at `a`
    assert_eq!(block.deallocate(a + 32, layout(64, 1)), Err(InvalidDeallocation));
    assert_eq!(holes(&block), before);
    assert_eq!(block.deallocate(b, layout(64, 1)), Ok(()));
    assert_eq!(holes(&block), vec![(BASE + HEADER, 4096 - HEADER)]);
}

#[test]
fn holes_and_allocations_tile_the_block() {
    let mut block = HeapBlock::new(BASE, 4096);
    let mut allocated: Vec<(usize, usize, usize)> = Vec::new();
    let sizes = [32usize, 48, 200, 16, 64, 1000, 24, 512, 128, 96];
    let aligns = [1usize, 8, 64, 16, 1, 256, 8, 32, 4, 128];
    for round in 0..40 {
        let size = sizes[round % sizes.len()].max(MIN);
        let align = aligns[(round * 7) % aligns.len()];
        if round % 3 == 2 && !allocated.is_empty() {
            let (addr, size, align) = allocated.remove((round * 5) % allocated.len());
            assert_eq!(block.deallocate(addr, layout(size, align)), Ok(()));
        } else if let Ok(addr) = block.allocate_first_fit(layout(size, align)) {
            assert_eq!(addr % align, 0);
            allocated.push((addr, size, align));
        }

        assert!(block.is_well_formed());
        let free = holes(&block);
        for pair in free.windows(2) {
            // ascending, and not touching
            assert!(pair[0].0 + pair[0].1 < pair[1].0);
        }
        for hole in &free {
            assert!(hole.1 >= MIN);
        }
        let mut parts: Vec<(usize, usize)> = free.clone();
        parts.extend(allocated.iter().map(|a| (a.0, a.1)));
        parts.sort();
        let mut at = BASE + HEADER;
        for part in parts {
            assert_eq!(part.0, at);
            at += part.1;
        }
        assert_eq!(at, BASE + 4096);
    }
    for (addr, size, align) in allocated {
        assert_eq!(block.deallocate(addr, layout(size, align)), Ok(()));
    }
    assert_eq!(holes(&block), vec![(BASE + HEADER, 4096 - HEADER)]);
}

#[test]
fn contains_includes_both_ends() {
    let block = HeapBlock::new(BASE, 4096);
    assert!(!block.contains(BASE - 1));
    assert!(block.contains(BASE));
    assert!(block.contains(BASE + 1));
    assert!(block.contains(BASE + 4095));
    assert!(block.contains(BASE + 4096));
    assert!(!block.contains(BASE + 4097));
    assert!(!block.contains(0));
    assert!(!block.contains(usize::MAX));
}

#[test]
fn blocks_can_be_chained() {
    let mut first = HeapBlock::new(BASE, 4096);
    first.next = Some(Box::new(HeapBlock::new(BASE + 4096, 4096)));
    assert_eq!(first.allocate_first_fit(layout(4096 - HEADER, 1)), Ok(BASE + HEADER));
    assert_eq!(first.allocate_first_fit(layout(32, 1)), Err(AllocError));
    let second = first.next.as_mut().unwrap();
    assert_eq!(second.allocate_first_fit(layout(32, 1)), Ok(BASE + 4096 + HEADER));
    assert!(second.contains(BASE + 4096 + HEADER));
    assert!(!first.contains(BASE + 4096 + HEADER));
}

#[test]
fn blocks_made_by_the_library_are_well_formed() {
    assert!(HeapBlock::new(BASE, 4096).is_well_formed());
    assert!(HeapBlock::new(BASE, HEADER).is_well_formed());
    assert!(HeapBlock::new(BASE, HEADER + 1).is_well_formed());
    assert!(HeapBlock::new(0, HEADER + MIN).is_well_formed());
    assert!(HeapBlock::new(usize::MAX - 4096, 4096).is_well_formed());
    let mut block = HeapBlock::new(BASE, 4096);
    let a = block.allocate_first_fit(layout(64, 1)).unwrap();
    let _b = block.allocate_first_fit(layout(64, 128)).unwrap();
    assert!(block.is_well_formed());
    assert_eq!(block.deallocate(a, layout(64, 1)), Ok(()));
    assert!(block.is_well_formed());
    assert_eq!(block.deallocate(a, layout(64, 1)), Err(InvalidDeallocation));
    assert!(block.is_well_formed());
}

fn block_with(found: &[(usize, usize)]) -> HeapBlock {
    let mut block = HeapBlock::new(BASE, 4096);
    let mut next = None;
    for &(addr, size) in found.iter().rev() {
        next = Some(Box::new(Hole { addr, size, next }));
    }
    block.first.next = next;
    block
}

#[test]
fn holes_in_order_are_well_formed() {
    let start = BASE + HEADER;
    assert!(block_with(&[]).is_well_formed());
    assert!(block_with(&[(start, MIN)]).is_well_formed());
    assert!(block_with(&[(start, MIN), (start + MIN + 1, MIN)]).is_well_formed());
    assert!(block_with(&[(start + 100, 200), (start + 1000, BASE + 4096 - start - 1000)])
        .is_well_formed());
}

#[test]
fn holes_out_of_order_are_not_well_formed() {
    let start = BASE + HEADER;
    // the second hole lies before the first, overlaps it, touches it
    assert!(!block_with(&[(start + 1000, 100), (start, 100)]).is_well_formed());
    assert!(!block_with(&[(start, 100), (start + 50, 100)]).is_well_formed());
    assert!(!block_with(&[(start, 100), (start + 100, 100)]).is_well_formed());
    assert!(!block_with(&[(start, 100), (start + 200, 100), (start + 300, 100)]).is_well_formed());
    assert!(!block_with(&[(start + 100, 100), (start + 100, 100)]).is_well_formed());
}

#[test]
fn holes_out_of_bounds_are_not_well_formed() {
    let start = BASE + HEADER;
    assert!(!block_with(&[(start - 1, 100)]).is_well_formed());
    assert!(!block_with(&[(BASE, 100)]).is_well_formed());
    assert!(!block_with(&[(0, 100)]).is_well_formed());
    assert!(!block_with(&[(start, 4096 - HEADER + 1)]).is_well_formed());
    assert!(!block_with(&[(BASE + 4096, MIN)]).is_well_formed());
    assert!(!block_with(&[(BASE + 4097, 0)]).is_well_formed());
    assert!(!block_with(&[(start, usize::MAX)]).is_well_formed());
    assert!(!block_with(&[(usize::MAX, usize::MAX)]).is_well_formed());
}

#[test]
fn holes_below_the_minimum_are_not_well_formed() {
    let start = BASE + HEADER;
    assert!(!block_with(&[(start, MIN - 1)]).is_well_formed());
    assert!(!block_with(&[(start, 0)]).is_well_formed());
    assert!(!block_with(&[(start, MIN), (start + 100, 1)]).is_well_formed());
    // unless the block is too small for a hole of the minimum
    let mut small = HeapBlock::new(BASE, HEADER + MIN - 1);
    assert!(small.is_well_formed());
    small.first.next = Some(Box::new(Hole { addr: start + 1, size: 2, next: None }));
    assert!(small.is_well_formed());
}

#[test]
fn changed_head_or_bounds_are_not_well_formed() {
    let mut block = HeapBlock::new(BASE, 4096);
    block.first.size = 8;
    assert!(!block.is_well_formed());
    let mut block = HeapBlock::new(BASE, 4096);
    block.first.addr = 8;
    assert!(!block.is_well_formed());
    let mut block = HeapBlock::new(BASE, 4096);
    block.capacity = HEADER - 1;
    assert!(!block.is_well_formed());
    let mut block = HeapBlock::new(BASE, 4096);
    block.base = usize::MAX - 4095;
    assert!(!block.is_well_formed());
    let mut block = HeapBlock::new(BASE, 4096);
    block.capacity = 2048;
    assert!(!block.is_well_formed());
    let mut block = HeapBlock::new(BASE, 4096);
    block.base = BASE + 1;
    assert!(!block.is_well_formed());
}
