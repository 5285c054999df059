use kernel_mm::heap::Heap;

const BASE: usize = 0x1000_0000;

fn lists(h: &Heap<32>) -> Vec<Vec<usize>> {
    (0..32).map(|k| h.free_blocks(k)).collect()
}

#[test]
fn small_allocation_rounds_to_power_of_two() {
    let mut h = Heap::<32>::new();
    h.init(BASE, 4096);
    assert_eq!(h.stats_total_bytes(), 4096);
    let initial = lists(&h);
    let p = h.allocate(100, 8).unwrap();
    assert_eq!(h.stats_alloc_user(), 100);
    assert_eq!(h.stats_alloc_actual(), 128);
    assert_eq!(p % 128, 0);
    h.dealloc(p, 100, 8);
    assert_eq!(h.stats_alloc_actual(), 0);
    assert_eq!(h.stats_alloc_user(), 0);
    assert_eq!(lists(&h), initial);
}

#[test]
fn split_leaves_upper_halves_free() {
    let mut h = Heap::<32>::new();
    h.init(BASE, 4096);
    assert_eq!(h.free_blocks(12), vec![BASE]);
    let p = h.allocate(100, 8).unwrap();
    assert_eq!(p, BASE);
    assert_eq!(h.free_blocks(12), Vec::<usize>::new());
    for k in 7..12 {
        assert_eq!(h.free_blocks(k), vec![BASE + (1 << k)]);
    }
}

#[test]
fn alloc_then_free_in_any_order_restores_the_heap() {
    let mut h = Heap::<32>::new();
    h.init(BASE, 4096);
    let initial = lists(&h);
    let requests = [(8usize, 8usize), (100, 8), (300, 16), (1000, 8), (16, 16), (24, 8)];
    let mut live = Vec::new();
    for &(size, align) in requests.iter() {
        live.push((h.allocate(size, align).unwrap(), size, align));
    }
    assert_eq!(h.stats_alloc_user(), 8 + 100 + 300 + 1000 + 16 + 24);
    assert_eq!(h.stats_alloc_actual(), 8 + 128 + 512 + 1024 + 16 + 32);
    for &i in [3usize, 0, 5, 1, 4, 2].iter() {
        let (p, size, align) = live[i];
        h.dealloc(p, size, align);
    }
    assert_eq!(h.stats_alloc_user(), 0);
    assert_eq!(h.stats_alloc_actual(), 0);
    assert_eq!(lists(&h), initial);
}

#[test]
fn alignment_raises_the_class() {
    let mut h = Heap::<32>::new();
    h.init(BASE, 4096);
    let p = h.allocate(8, 64).unwrap();
    assert_eq!(h.stats_alloc_actual(), 64);
    assert_eq!(p % 64, 0);
    let q = h.allocate(0, 1).unwrap();
    assert_eq!(h.stats_alloc_actual(), 72);
    assert_ne!(p, q);
}

#[test]
fn out_of_memory() {
    let mut h = Heap::<32>::new();
    assert!(h.allocate(8, 8).is_err());
    h.init(BASE, 4096);
    assert!(h.allocate(8192, 8).is_err());
    assert_eq!(h.stats_alloc_actual(), 0);
    let p = h.allocate(4096, 8).unwrap();
    assert!(h.allocate(8, 8).is_err());
    h.dealloc(p, 4096, 8);
    assert!(h.allocate(8, 8).is_ok());
}

#[test]
fn unaligned_arena_is_split_greedily() {
    let mut h = Heap::<32>::empty();
    h.init(BASE + 8, 100);
    assert_eq!(h.stats_total_bytes(), 96);
    assert_eq!(h.free_blocks(3), vec![BASE + 0x8, BASE + 0x60]);
    assert_eq!(h.free_blocks(4), vec![BASE + 0x10]);
    assert_eq!(h.free_blocks(5), vec![BASE + 0x20, BASE + 0x40]);
}

#[test]
fn start_is_rounded_up() {
    let mut h = Heap::<32>::new();
    h.add_to_heap(BASE + 1, BASE + 0x41);
    assert_eq!(h.stats_total_bytes(), 0x38);
    assert_eq!(h.free_blocks(3), vec![BASE + 8]);
    assert_eq!(h.free_blocks(4), vec![BASE + 0x10]);
    assert_eq!(h.free_blocks(5), vec![BASE + 0x20]);
}

#[test]
fn buddies_merge_only_when_both_are_free() {
    let mut h = Heap::<32>::new();
    h.init(BASE, 256);
    let a = h.allocate(64, 8).unwrap();
    let b = h.allocate(64, 8).unwrap();
    assert_eq!(b, a + 64);
    h.dealloc(a, 64, 8);
    assert_eq!(h.free_blocks(6), vec![a]);
    h.dealloc(b, 64, 8);
    assert_eq!(h.free_blocks(6), Vec::<usize>::new());
    assert_eq!(h.free_blocks(8), vec![BASE]);
}
