//! End-to-end behaviour of the allocator: splitting, reuse, coalescing in
//! both orders, exhaustion, and header-pool growth.

use agnaji::tlsf::TLSF;

#[test]
fn single_page_reuse_scenario() {
    // one page of 1024 bytes
    let mut tlsf: TLSF<()> = TLSF::new_for_max_size(1024);
    tlsf.new_page((), 1024);

    // 100 bytes round to 128, served from the front of the page
    let a = tlsf.allocate(100).expect("first allocation");
    assert_eq!(a.get_offset(), 0);
    assert_eq!(a.get_pool(), 0);

    // 200 bytes round to 224, served right behind the first block
    let b = tlsf.allocate(200).expect("second allocation");
    assert_eq!(b.get_offset(), 128);
    assert_eq!(b.get_pool(), 0);

    tlsf.free(a);

    // 50 bytes round to 64 and must reuse the freed 128-byte region at the
    // front, not the unused tail of the page
    let c = tlsf.allocate(50).expect("third allocation");
    assert_eq!(c.get_offset(), 0);

    tlsf.free(b);
    tlsf.free(c);
}

#[test]
fn coalesce_in_either_free_order() {
    let mut tlsf: TLSF<()> = TLSF::new_for_max_size(1024);
    tlsf.new_page((), 1024);

    // two adjacent halves, freed front block first
    let a = tlsf.allocate(512).expect("front half");
    let b = tlsf.allocate(512).expect("back half");
    assert_eq!(a.get_offset(), 0);
    assert_eq!(b.get_offset(), 512);
    tlsf.free(a);
    tlsf.free(b);
    let whole = tlsf.allocate(1024).expect("whole page after front-first frees");
    assert_eq!(whole.get_offset(), 0);
    tlsf.free(whole);

    // the same two halves, freed back block first
    let a = tlsf.allocate(512).expect("front half again");
    let b = tlsf.allocate(512).expect("back half again");
    tlsf.free(b);
    tlsf.free(a);
    let whole = tlsf.allocate(1024).expect("whole page after back-first frees");
    assert_eq!(whole.get_offset(), 0);
}

#[test]
fn coalesce_merges_both_neighbours() {
    let mut tlsf: TLSF<()> = TLSF::new_for_max_size(1024);
    tlsf.new_page((), 1024);

    let a = tlsf.allocate(256).expect("first quarter");
    let b = tlsf.allocate(256).expect("second quarter");
    let c = tlsf.allocate(512).expect("back half");
    assert_eq!(a.get_offset(), 0);
    assert_eq!(b.get_offset(), 256);
    assert_eq!(c.get_offset(), 512);

    // freeing the middle block last folds both free neighbours into one
    tlsf.free(a);
    tlsf.free(c);
    tlsf.free(b);
    let whole = tlsf.allocate(1024).expect("whole page after middle-last free");
    assert_eq!(whole.get_offset(), 0);
}

#[test]
fn exhaustion_and_recovery() {
    let mut tlsf: TLSF<()> = TLSF::new_for_max_size(1024);
    tlsf.new_page((), 64);

    // more than the page holds
    assert!(tlsf.allocate(65).is_none());
    let a = tlsf.allocate(64).expect("whole page");
    assert_eq!(a.get_offset(), 0);
    // the page is full now
    assert!(tlsf.allocate(1).is_none());
    tlsf.free(a);
    let b = tlsf.allocate(33).expect("after freeing");
    assert_eq!(b.get_offset(), 0);
}

#[test]
fn request_beyond_served_classes_fails() {
    let mut tlsf: TLSF<()> = TLSF::new_for_max_size(1024);
    tlsf.new_page((), 1024);
    assert!(tlsf.allocate(4096).is_none());
    assert!(tlsf.allocate(usize::MAX).is_none());
    assert!(tlsf.allocate(1).is_some());
}

#[test]
fn offsets_keep_minimum_granularity() {
    let mut tlsf: TLSF<()> = TLSF::new_for_max_size(4096);
    tlsf.new_page((), 4096);
    let mut handles = Vec::new();
    for request in [1usize, 33, 7, 100, 65, 31, 200, 99] {
        let a = tlsf.allocate(request).expect("allocation");
        assert_eq!(a.get_offset() % 32, 0, "offset not a granule multiple");
        handles.push(a);
    }
    for a in handles {
        tlsf.free(a);
    }
    // everything merged back: the full page is available again
    assert!(tlsf.allocate(4096).is_some());
}

#[test]
fn header_pool_grows_beyond_one_batch() {
    // 128 live blocks need more than one 64-header batch
    let mut tlsf: TLSF<()> = TLSF::new_for_max_size(8192);
    tlsf.new_page((), 8192);
    let mut handles = Vec::new();
    for k in 0..128usize {
        let a = tlsf.allocate(32).expect("small allocation");
        assert_eq!(a.get_offset(), 32 * k);
        handles.push(a);
    }
    // free every other block first, then the rest, to merge across many
    // recycled headers
    let mut rest = Vec::new();
    for (k, a) in handles.into_iter().enumerate() {
        if k % 2 == 0 {
            tlsf.free(a);
        } else {
            rest.push(a);
        }
    }
    for a in rest {
        tlsf.free(a);
    }
    let whole = tlsf.allocate(8192).expect("whole page after all frees");
    assert_eq!(whole.get_offset(), 0);
}

#[test]
fn pages_are_independent_pools() {
    let mut tlsf: TLSF<u8> = TLSF::new_for_max_size(1024);
    tlsf.new_page(7, 256);
    tlsf.new_page(9, 256);

    let a = tlsf.allocate(256).expect("first page");
    let b = tlsf.allocate(256).expect("second page");
    assert_ne!(a.get_pool(), b.get_pool());
    assert_eq!(a.get_offset(), 0);
    assert_eq!(b.get_offset(), 0);
    assert!(tlsf.allocate(1).is_none());

    tlsf.free(a);
    let c = tlsf.allocate(100).expect("after freeing one page");
    assert_eq!(c.get_offset(), 0);
    tlsf.free(b);
    tlsf.free(c);
}

#[test]
fn no_false_exhaustion_across_levels() {
    // a single free block in a high class must serve a small request even
    // though every lower class is empty
    let mut tlsf: TLSF<()> = TLSF::new_for_max_size(4096);
    tlsf.new_page((), 4096);
    let a = tlsf.allocate(33).expect("small request from a large block");
    assert_eq!(a.get_offset(), 0);
    // and a second-level escalation within the same first level
    let b = tlsf.allocate(40).expect("second small request");
    assert_eq!(b.get_offset(), 64);
}

#[test]
fn live_allocations_never_overlap() {
    // drive a long deterministic allocate/free mix and check against a
    // shadow model that no two live blocks ever share a byte and that every
    // block stays inside its page
    let mut tlsf: TLSF<()> = TLSF::new_for_max_size(4096);
    tlsf.new_page((), 4096);
    tlsf.new_page((), 2048);

    let mut live: Vec<(agnaji::tlsf::Allocation, usize, usize, usize)> = Vec::new();
    let mut state: u64 = 0x2545_f491_4f6c_dd1d;
    let page_sizes = [4096usize, 2048usize];
    for _ in 0..400 {
        // a small linear congruential step keeps the run reproducible
        state = state.wrapping_mul(6364136223846793005).wrapping_add(1442695040888963407);
        let roll = (state >> 33) as usize;
        if roll % 3 != 0 || live.is_empty() {
            let request = 1 + roll % 500;
            if let Some(a) = tlsf.allocate(request) {
                let rounded = request.div_ceil(32) * 32;
                let offset = a.get_offset();
                let pool = a.get_pool();
                assert!(pool < 2);
                assert_eq!(offset % 32, 0);
                assert!(offset + rounded <= page_sizes[pool], "block leaves its page");
                for (_, other_pool, other_offset, other_len) in &live {
                    if *other_pool == pool {
                        let disjoint = offset + rounded <= *other_offset || *other_offset
                            + *other_len <= offset;
                        assert!(disjoint, "two live blocks overlap");
                    }
                }
                live.push((a, pool, offset, rounded));
            }
        } else {
            let victim = roll % live.len();
            let (a, _, _, _) = live.swap_remove(victim);
            tlsf.free(a);
        }
    }
    for (a, _, _, _) in live {
        tlsf.free(a);
    }
    // both pages merge back whole
    let first = tlsf.allocate(4096).expect("first page whole again");
    let second = tlsf.allocate(2048).expect("second page whole again");
    assert_eq!(first.get_offset(), 0);
    assert_eq!(second.get_offset(), 0);
    assert_ne!(first.get_pool(), second.get_pool());
}
