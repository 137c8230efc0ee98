use emheap::heap::Allocator;
use emheap::heap::HEADER_SIZE;

#[test]
fn it_works() {
    let result = 2 + 2;
    assert_eq!(result, 4);
}

#[test]
fn init_free_size() {
    let h = Allocator::init(0, 1024);
    assert_eq!(h.get_free_size(), 1024 - HEADER_SIZE);
}

#[test]
fn first_fit_pointer_and_split() {
    let mut h = Allocator::init(0, 1024);
    let p = h.allocate(100, 1);
    // The single free block starts at offset 0, so the payload begins
    // right after its header.
    assert_eq!(p, Some(8));
    // The remainder was split off behind a fresh header.
    assert_eq!(h.get_free_size(), 1016 - 100 - HEADER_SIZE);
}

#[test]
fn alignment_with_padding() {
    let mut h = Allocator::init(0, 1024);
    let p = h.allocate(10, 16);
    // Payload at offset 8 is not 16-aligned: a 16-byte leading fragment
    // plus a fresh header move it to address 32.
    assert_eq!(p, Some(32));
    assert_eq!(h.get_free_size(), 990);
}

#[test]
fn alignment_all_powers() {
    // A base that is itself unaligned exercises the padding paths.
    for base in [0usize, 3, 16, 1001] {
        let mut h = Allocator::init(base, 1 << 16);
        for align in [1usize, 2, 4, 8, 16, 32, 64, 128] {
            let p = h.allocate(24, align).expect("heap has room");
            assert_eq!(p % align, 0, "align {} base {}", align, base);
        }
    }
}

#[test]
fn zero_size_rejected() {
    let mut h = Allocator::init(0, 1024);
    assert_eq!(h.allocate(0, 8), None);
    assert_eq!(h.get_free_size(), 1016);
}

#[test]
fn non_power_of_two_align_rejected() {
    let mut h = Allocator::init(0, 1024);
    assert_eq!(h.allocate(8, 3), None);
    assert_eq!(h.allocate(8, 0), None);
    assert_eq!(h.allocate(8, 12), None);
    assert_eq!(h.get_free_size(), 1016);
}

#[test]
fn oversized_request_rejected() {
    let mut h = Allocator::init(0, 1024);
    assert_eq!(h.allocate(1017, 1), None);
    assert_eq!(h.get_free_size(), 1016);
}

#[test]
fn conservation() {
    let mut h = Allocator::init(0, 1024);
    let a = h.allocate(100, 1).unwrap();
    let b = h.allocate(50, 4).unwrap();
    let _ = b;
    // Free bytes, live payloads and one header per block tile the
    // region exactly.
    let live: usize = h.blocks.iter().filter(|bl| !bl.free).map(|bl| bl.size).sum();
    let headers = h.blocks.len() * HEADER_SIZE;
    assert_eq!(h.get_free_size() + live + headers, 1024);
    h.free(a);
    let live: usize = h.blocks.iter().filter(|bl| !bl.free).map(|bl| bl.size).sum();
    let headers = h.blocks.len() * HEADER_SIZE;
    assert_eq!(h.get_free_size() + live + headers, 1024);
}

#[test]
fn no_adjacent_free_after_frees() {
    let mut h = Allocator::init(0, 4096);
    let mut ptrs = Vec::new();
    for _ in 0..8 {
        ptrs.push(h.allocate(64, 8).unwrap());
    }
    // Free every other block, then the rest, scanning for adjacent free
    // blocks after each call.
    for step in [0usize, 1] {
        for (i, p) in ptrs.iter().enumerate() {
            if i % 2 == step {
                h.free(*p);
                for w in h.blocks.windows(2) {
                    assert!(!(w[0].free && w[1].free));
                }
            }
        }
    }
}

#[test]
fn disjoint_spans() {
    let mut h = Allocator::init(0, 4096);
    let mut spans = Vec::new();
    for i in 0..6 {
        let size = 16 + 8 * i;
        let p = h.allocate(size, 4).unwrap();
        spans.push((p, p + size));
    }
    for (i, a) in spans.iter().enumerate() {
        for (j, b) in spans.iter().enumerate() {
            if i != j {
                assert!(a.1 <= b.0 || b.1 <= a.0, "{:?} overlaps {:?}", a, b);
            }
        }
    }
}

#[test]
fn coalescing_round_trip() {
    let mut h = Allocator::init(0, 1024);
    let after_init = h.get_free_size();
    let a = h.allocate(100, 1).unwrap();
    let b = h.allocate(100, 1).unwrap();
    let c = h.allocate(100, 1).unwrap();
    h.free(a);
    h.free(c);
    h.free(b);
    assert_eq!(h.get_free_size(), after_init);
    assert_eq!(h.blocks.len(), 1);
}

#[test]
fn exhaustion_and_recovery() {
    let mut h = Allocator::init(0, 64);
    // The whole free payload in one request: the block is consumed as
    // is, nothing is left.
    let p = h.allocate(56, 1).unwrap();
    assert_eq!(h.get_free_size(), 0);
    assert_eq!(h.allocate(1, 1), None);
    assert_eq!(h.get_free_size(), 0);
    h.free(p);
    assert_eq!(h.get_free_size(), 56);
    assert!(h.allocate(56, 1).is_some());
}

#[test]
fn exhaustion_by_fragmentation() {
    let mut h = Allocator::init(0, 64);
    let p = h.allocate(40, 1).unwrap();
    // An 8-byte free remainder exists, but cannot host 9 bytes.
    assert_eq!(h.get_free_size(), 8);
    assert_eq!(h.allocate(9, 1), None);
    assert_eq!(h.get_free_size(), 8);
    assert!(h.allocate(8, 1).is_some());
    h.free(p);
    assert!(h.allocate(40, 1).is_some());
}

#[test]
fn free_size_idempotent() {
    let mut h = Allocator::init(0, 1024);
    let _ = h.allocate(100, 1).unwrap();
    let first = h.get_free_size();
    let second = h.get_free_size();
    assert_eq!(first, second);
}

#[test]
fn is_live_tracks_allocations() {
    let mut h = Allocator::init(0, 1024);
    assert!(!h.is_live(8));
    let p = h.allocate(100, 1).unwrap();
    assert!(h.is_live(p));
    assert!(!h.is_live(p + 1));
    h.free(p);
    assert!(!h.is_live(p));
}

#[test]
fn nonzero_base_pointers_inside_region() {
    let base = 4096usize;
    let size = 512usize;
    let mut h = Allocator::init(base, size);
    let p = h.allocate(64, 8).unwrap();
    assert!(p >= base + HEADER_SIZE);
    assert!(p + 64 <= base + size);
    assert_eq!(p % 8, 0);
}
