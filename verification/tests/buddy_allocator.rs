use os_core::bits::{next_power_of_two, order_of, prev_power_of_2};
use os_core::buddy_allocator::{Heap, LAYER_COUNT};
use os_core::linked_list::LinkedList;

fn layer_entries(h: &Heap, k: usize) -> Vec<usize> {
    let mut v = Vec::new();
    let mut it = h.layer(k).iter();
    while let Some(x) = it.next() {
        v.push(x);
    }
    v
}

fn all_layers(h: &Heap) -> Vec<Vec<usize>> {
    (0..LAYER_COUNT).map(|k| layer_entries(h, k)).collect()
}

#[test]
fn new_heap_is_empty() {
    let h = Heap::new();
    assert_eq!(h.total(), 0);
    assert_eq!(h.allocated(), 0);
    for k in 0..LAYER_COUNT {
        assert!(h.layer(k).is_empty());
    }
}

#[test]
fn prev_power_of_two_values() {
    assert_eq!(prev_power_of_2(1), 1);
    assert_eq!(prev_power_of_2(2), 2);
    assert_eq!(prev_power_of_2(3), 2);
    assert_eq!(prev_power_of_2(0x3000), 0x2000);
    assert_eq!(prev_power_of_2(usize::MAX), 1usize << (usize::BITS - 1));
}

#[test]
fn next_power_of_two_values() {
    assert_eq!(next_power_of_two(0), 1);
    assert_eq!(next_power_of_two(1), 1);
    assert_eq!(next_power_of_two(5), 8);
    assert_eq!(next_power_of_two(16), 16);
    assert_eq!(order_of(1), 0);
    assert_eq!(order_of(4096), 12);
}

#[test]
fn manage_cuts_aligned_blocks() {
    let mut h = Heap::new();
    h.manage(0x1000, 0x4000);
    assert_eq!(h.total(), 0x3000);
    assert_eq!(layer_entries(&h, 12), vec![0x1000]);
    assert_eq!(layer_entries(&h, 13), vec![0x2000]);
    let used: usize = (0..LAYER_COUNT).map(|k| layer_entries(&h, k).len() << k).sum();
    assert_eq!(used, 0x3000);
}

#[test]
fn manage_leaves_less_than_a_word() {
    let mut h = Heap::new();
    let word = core::mem::size_of::<usize>();
    // An unaligned start is cut into growing blocks; a tail shorter than a word is left.
    h.manage(0x1004, 0x1040 + word - 1);
    let free: usize = (0..LAYER_COUNT).map(|k| layer_entries(&h, k).len() << k).sum();
    assert_eq!(h.total(), free);
    assert!(0x1040 + word - 1 - (0x1004 + free) < word);
    assert_eq!(layer_entries(&h, 2), vec![0x1004]);
    assert_eq!(layer_entries(&h, 3), vec![0x1008]);
    assert_eq!(layer_entries(&h, 4), vec![0x1010]);
    assert_eq!(layer_entries(&h, 5), vec![0x1020]);
}

#[test]
fn init_is_manage_of_a_length() {
    let mut a = Heap::new();
    let mut b = Heap::new();
    a.init(0x8000, 0x2000);
    b.manage(0x8000, 0xa000);
    assert_eq!(all_layers(&a), all_layers(&b));
    assert_eq!(a.total(), b.total());
}

#[test]
fn allocate_splits_the_first_fitting_block() {
    let mut h = Heap::new();
    h.manage(0x1000, 0x2000);
    let r = h.allocate(16, 8);
    assert_eq!(r, Some(0x1000));
    assert_eq!(h.allocated(), 16);
    assert!(layer_entries(&h, 12).is_empty());
    for k in 4..12 {
        assert_eq!(layer_entries(&h, k), vec![0x1000 + (1 << k)]);
    }
    let r2 = h.allocate(16, 8);
    assert_eq!(r2, Some(0x1010));
    assert_eq!(h.allocated(), 32);
}

#[test]
fn allocate_rounds_size_and_alignment() {
    let mut h = Heap::new();
    h.manage(0x10000, 0x20000);
    // 100 bytes take a 128-byte block; an alignment of 256 takes a 256-byte block.
    let a = h.allocate(100, 1).unwrap();
    assert_eq!(a % 128, 0);
    assert_eq!(h.allocated(), 128);
    let b = h.allocate(1, 256).unwrap();
    assert_eq!(b % 256, 0);
    assert_eq!(h.allocated(), 128 + 256);
    // A zero-sized request still takes a word.
    let c = h.allocate(0, 1).unwrap();
    assert_eq!(h.allocated(), 128 + 256 + core::mem::size_of::<usize>());
    assert_ne!(c, a);
}

#[test]
fn allocate_fails_without_a_large_enough_block() {
    let mut h = Heap::new();
    assert_eq!(h.allocate(8, 8), None);
    h.manage(0x1000, 0x1100);
    let before = all_layers(&h);
    assert_eq!(h.allocate(0x200, 8), None);
    assert_eq!(all_layers(&h), before);
    assert_eq!(h.allocated(), 0);
    // An order past the last free list is never served.
    assert_eq!(h.allocate(1, 1usize << 40), None);
}

#[test]
fn dealloc_merges_buddies_back() {
    let mut h = Heap::new();
    h.manage(0x1000, 0x4000);
    let before = all_layers(&h);
    let a = h.allocate(16, 8).unwrap();
    h.dealloc(a, 16, 8);
    assert_eq!(all_layers(&h), before);
    assert_eq!(h.allocated(), 0);
    assert_eq!(h.total(), 0x3000);
}

#[test]
fn dealloc_without_free_buddy_stays_at_its_order() {
    let mut h = Heap::new();
    h.manage(0x1000, 0x2000);
    let a = h.allocate(16, 8).unwrap();
    let b = h.allocate(16, 8).unwrap();
    assert_eq!((a, b), (0x1000, 0x1010));
    // Giving back `a` while its buddy `b` is out leaves it on the order-4 list.
    h.dealloc(a, 16, 8);
    assert_eq!(layer_entries(&h, 4), vec![0x1000]);
    // Giving back `b` merges all the way up.
    h.dealloc(b, 16, 8);
    assert_eq!(layer_entries(&h, 12), vec![0x1000]);
    for k in 0..12 {
        assert!(layer_entries(&h, k).is_empty());
    }
}

#[test]
fn free_bytes_are_restored_after_a_round_trip() {
    let mut h = Heap::new();
    h.manage(0x40000, 0x48000);
    let mut taken = Vec::new();
    for size in [8usize, 24, 64, 100, 512, 1000] {
        taken.push((h.allocate(size, 8).unwrap(), size));
    }
    let alloc_total: usize = h.allocated();
    assert!(alloc_total > 0);
    for (p, s) in taken.into_iter().rev() {
        h.dealloc(p, s, 8);
    }
    assert_eq!(h.allocated(), 0);
    let free: usize = (0..LAYER_COUNT).map(|k| layer_entries(&h, k).len() << k).sum();
    assert_eq!(free, 0x8000);
    assert_eq!(layer_entries(&h, 15), vec![0x40000]);
}

#[test]
fn linked_list_is_a_stack() {
    let mut l = LinkedList::new();
    assert!(l.is_empty());
    l.push(1);
    l.push(2);
    l.push(3);
    assert_eq!(l.len(), 3);
    assert_eq!(l.pop(), Some(3));
    assert_eq!(l.pop(), Some(2));
    l.push(4);
    assert_eq!(l.pop(), Some(4));
    assert_eq!(l.pop(), Some(1));
    assert_eq!(l.pop(), None);
    assert!(l.is_empty());
}

#[test]
fn linked_list_iterates_from_the_head() {
    let mut l = LinkedList::new();
    for x in [10usize, 20, 30] {
        l.push(x);
    }
    let mut it = l.iter();
    assert_eq!(it.next(), Some(30));
    assert_eq!(it.next(), Some(20));
    assert_eq!(it.next(), Some(10));
    assert_eq!(it.next(), None);
    assert_eq!(it.next(), None);
}

#[test]
fn list_node_removes_itself() {
    let mut l = LinkedList::new();
    for x in [10usize, 20, 30] {
        l.push(x);
    }
    let mut it = l.iter_mut();
    let mut removed = None;
    while let Some(node) = it.next(&l) {
        if node.value() == 20 {
            removed = Some(node.remove(&mut l));
            break;
        }
    }
    assert_eq!(removed, Some(20));
    assert_eq!(l.pop(), Some(30));
    assert_eq!(l.pop(), Some(10));
    assert_eq!(l.pop(), None);
}

#[test]
fn list_walk_goes_on_after_a_removal() {
    let mut l = LinkedList::new();
    for x in [10usize, 20, 30, 40] {
        l.push(x);
    }
    let mut it = l.iter_mut();
    let mut seen = Vec::new();
    while let Some(node) = it.next(&l) {
        seen.push(node.value());
        if node.value() == 30 {
            node.remove(&mut l);
        }
    }
    assert_eq!(seen, vec![40, 30, 20, 10]);
    assert_eq!(l.pop(), Some(40));
    assert_eq!(l.pop(), Some(20));
    assert_eq!(l.pop(), Some(10));
    assert_eq!(l.pop(), None);
}

fn no_free_buddies(h: &Heap) -> bool {
    (0..LAYER_COUNT).all(|k| {
        let l = layer_entries(h, k);
        l.iter().all(|&a| !l.contains(&(a ^ (1usize << k))))
    })
}

#[test]
fn dealloc_restores_the_lists_an_allocation_split() {
    let mut h = Heap::new();
    h.manage(0x1000, 0x4000);
    h.manage(0x10000, 0x10040);
    assert!(no_free_buddies(&h));
    let before = all_layers(&h);
    let p = h.allocate(8, 8).unwrap();
    assert_eq!(p, 0x10000);
    assert!(no_free_buddies(&h));
    assert_eq!(layer_entries(&h, 3), vec![0x10008]);
    assert_eq!(layer_entries(&h, 4), vec![0x10010]);
    assert_eq!(layer_entries(&h, 5), vec![0x10020]);
    h.dealloc(p, 8, 8);
    assert!(no_free_buddies(&h));
    assert_eq!(all_layers(&h), before);
    assert_eq!(h.allocated(), 0);
}

#[test]
fn allocations_do_not_overlap_while_held() {
    let mut h = Heap::new();
    h.manage(0x1000, 0x2000);
    let a = h.allocate(0x100, 8).unwrap();
    let b = h.allocate(0x100, 8).unwrap();
    let c = h.allocate(0x200, 8).unwrap();
    let blocks = [(a, 0x100), (b, 0x100), (c, 0x200)];
    for (i, &(x, xs)) in blocks.iter().enumerate() {
        for &(y, ys) in &blocks[i + 1..] {
            assert!(x + xs <= y || y + ys <= x);
        }
    }
    h.dealloc(b, 0x100, 8);
    let d = h.allocate(0x100, 8).unwrap();
    assert_eq!(d, b);
    assert!(no_free_buddies(&h));
}
