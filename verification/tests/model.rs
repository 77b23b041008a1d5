use core::mem::size_of;

use heap_block::{HeapBlock, Hole, Layout};

const WORD: usize = size_of::<usize>();
const HEADER: usize = 3 * WORD;
const MIN: usize = 2 * WORD;

/// A block as a map of its bytes: `true` where a byte is free.
struct ByteMap {
    start: usize,
    free: Vec<bool>,
}

impl ByteMap {
    fn new(start: usize, len: usize) -> ByteMap {
        ByteMap { start, free: vec![true; len] }
    }

    /// The runs of free bytes, as (address, size).
    fn runs(&self) -> Vec<(usize, usize)> {
        let mut runs = Vec::new();
        let mut at = 0;
        while at < self.free.len() {
            if self.free[at] {
                let from = at;
                while at < self.free.len() && self.free[at] {
                    at += 1;
                }
                runs.push((self.start + from, at - from));
            } else {
                at += 1;
            }
        }
        runs
    }

    fn allocate(&mut self, size: usize, align: usize) -> Option<usize> {
        for (addr, len) in self.runs() {
            let mut begin = addr;
            if begin % align != 0 {
                begin = addr + MIN;
                while begin % align != 0 {
                    begin += 1;
                }
            }
            if begin + size > addr + len {
                continue;
            }
            let rest = addr + len - begin - size;
            if rest != 0 && rest < MIN {
                continue;
            }
            for byte in begin..begin + size {
                self.free[byte - self.start] = false;
            }
            return Some(begin);
        }
        None
    }

    fn is_free_anywhere(&self, addr: usize, size: usize) -> bool {
        (addr..addr + size).any(|byte| self.free[byte - self.start])
    }

    fn release(&mut self, addr: usize, size: usize) {
        for byte in addr..addr + size {
            self.free[byte - self.start] = true;
        }
    }
}

fn holes(block: &HeapBlock) -> Vec<(usize, usize)> {
    let mut found = Vec::new();
    let mut hole: &Hole = &block.first;
    while let Some(next) = hole.next.as_ref() {
        found.push((next.addr, next.size));
        hole = next;
    }
    found
}

struct Dice(u64);

impl Dice {
    fn roll(&mut self, sides: usize) -> usize {
        self.0 = self.0.wrapping_mul(6364136223846793005).wrapping_add(1442695040888963407);
        ((self.0 >> 33) as usize) % sides
    }
}

fn play(base: usize, capacity: usize, seed: u64, rounds: usize) {
    let mut block = HeapBlock::new(base, capacity);
    let mut map = ByteMap::new(base + HEADER, capacity - HEADER);
    let mut dice = Dice(seed);
    let mut allocated: Vec<(usize, usize)> = Vec::new();
    assert_eq!(holes(&block), map.runs());
    for _ in 0..rounds {
        match dice.roll(5) {
            0 | 1 | 2 => {
                let size = MIN + dice.roll(200);
                let align = 1 << dice.roll(8);
                let layout = Layout::from_size_align(size, align).unwrap();
                let expected = map.allocate(size, align);
                assert_eq!(block.allocate_first_fit(layout).ok(), expected);
                if let Some(addr) = expected {
                    allocated.push((addr, size));
                }
            }
            3 if !allocated.is_empty() => {
                let (addr, size) = allocated.swap_remove(dice.roll(allocated.len()));
                let layout = Layout::from_size_align(size, 1).unwrap();
                assert_eq!(block.deallocate(addr, layout), Ok(()));
                map.release(addr, size);
            }
            _ => {
                // any memory of the block: it can be given back if none of it is free
                let size = (MIN + dice.roll(64)).min(capacity - HEADER);
                let addr = base + HEADER + dice.roll(capacity - HEADER - size + 1);
                let layout = Layout::from_size_align(size, 1).unwrap();
                let overlaps = map.is_free_anywhere(addr, size);
                assert_eq!(block.deallocate(addr, layout).is_err(), overlaps);
                if !overlaps {
                    // It was part of an allocation or of more than one. Take it back.
                    map.release(addr, size);
                    let mut cut = Vec::new();
                    for (a, s) in allocated.drain(..) {
                        if a + s <= addr || addr + size <= a {
                            cut.push((a, s));
                            continue;
                        }
                        if a < addr {
                            cut.push((a, addr - a));
                        }
                        if addr + size < a + s {
                            cut.push((addr + size, a + s - addr - size));
                        }
                    }
                    allocated = cut;
                }
            }
        }
        assert_eq!(holes(&block), map.runs());
    }
}

#[test]
fn block_agrees_with_a_map_of_its_bytes() {
    play(0x4_0000, 2048, 1, 600);
    play(0x4_0000 + 8, 2048, 2, 600);
    play(0x7_fff0 - HEADER, 1500, 3, 600);
}

#[test]
fn small_blocks_agree_with_a_map_of_their_bytes() {
    for capacity in HEADER + MIN..HEADER + MIN + 96 {
        play(0x1000 + capacity, capacity, capacity as u64, 120);
    }
}
