//! Size-class mapping and bit-scan behaviour on concrete values.

use agnaji::tlsf::TLSF;

#[test]
fn map_request_size_exact_values() {
    // everything up to the minimum block size shares the first class
    assert_eq!(TLSF::<()>::map_request_size(1), (0, 0));
    assert_eq!(TLSF::<()>::map_request_size(31), (0, 0));
    assert_eq!(TLSF::<()>::map_request_size(32), (0, 0));
    // 33 starts its own one-byte-wide class
    assert_eq!(TLSF::<()>::map_request_size(33), (0, 1));
    assert_eq!(TLSF::<()>::map_request_size(50), (0, 18));
    assert_eq!(TLSF::<()>::map_request_size(63), (0, 31));
    assert_eq!(TLSF::<()>::map_request_size(64), (1, 0));
    // 97 lies inside class (1, 16), so it is keyed at the next class up
    assert_eq!(TLSF::<()>::map_request_size(97), (1, 17));
    // 100 is exactly the start of class (1, 18)
    assert_eq!(TLSF::<()>::map_request_size(100), (1, 18));
    assert_eq!(TLSF::<()>::map_request_size(1024), (5, 0));
    assert_eq!(TLSF::<()>::map_request_size(1025), (5, 1));
    // last class of a first level rolls over to the next first level
    assert_eq!(TLSF::<()>::map_request_size(2047), (6, 0));
    assert_eq!(TLSF::<()>::map_request_size(2048), (6, 0));
}

#[test]
fn map_request_size_monotonic_samples() {
    let sizes: Vec<usize> = vec![
        1, 2, 31, 32, 33, 50, 63, 64, 65, 96, 97, 100, 128, 200, 224, 512, 672, 896, 1023, 1024,
        1025, 2047, 2048, 4096, 65536, 1 << 20,
    ];
    let mut last = (0u32, 0u32);
    for size in sizes {
        let class = TLSF::<()>::map_request_size(size);
        assert!(
            class.0 > last.0 || (class.0 == last.0 && class.1 >= last.1),
            "classes went backwards at size {}",
            size
        );
        last = class;
    }
}

#[test]
fn map_block_size_exact_values() {
    assert_eq!(TLSF::<()>::map_block_size(32), (0, 0));
    assert_eq!(TLSF::<()>::map_block_size(64), (1, 0));
    assert_eq!(TLSF::<()>::map_block_size(96), (1, 16));
    assert_eq!(TLSF::<()>::map_block_size(128), (2, 0));
    assert_eq!(TLSF::<()>::map_block_size(224), (2, 24));
    assert_eq!(TLSF::<()>::map_block_size(672), (4, 10));
    assert_eq!(TLSF::<()>::map_block_size(896), (4, 24));
    assert_eq!(TLSF::<()>::map_block_size(1024), (5, 0));
    assert_eq!(TLSF::<()>::map_block_size(1055), (5, 0));
    assert_eq!(TLSF::<()>::map_block_size(1056), (5, 1));
}

#[test]
fn blocks_at_or_above_request_class_suffice() {
    // any block filed in a class at or above a request's class is large
    // enough for the request, even after rounding the request up to the
    // minimum granularity
    let requests: Vec<usize> = vec![1, 31, 32, 33, 50, 97, 100, 200, 500, 1000, 1024, 4000, 4010];
    let blocks: Vec<usize> = vec![32, 64, 96, 128, 224, 512, 672, 1024, 2048, 3968, 4000, 4032];
    for &request in &requests {
        let request_class = TLSF::<()>::map_request_size(request);
        let rounded = request.div_ceil(32) * 32;
        for &block in &blocks {
            let block_class = TLSF::<()>::map_block_size(block);
            let at_or_above = block_class.0 > request_class.0 || (block_class.0
                == request_class.0 && block_class.1 >= request_class.1);
            if at_or_above {
                assert!(
                    block >= rounded,
                    "block {} in class ({}, {}) is too small for request {}",
                    block,
                    block_class.0,
                    block_class.1,
                    request
                );
            }
        }
    }
}

#[test]
fn first_one_after_at_cases() {
    assert_eq!(TLSF::<()>::first_one_after_at(0, 0), None);
    assert_eq!(TLSF::<()>::first_one_after_at(0b1000, 0), Some(3));
    assert_eq!(TLSF::<()>::first_one_after_at(0b1000, 3), Some(3));
    assert_eq!(TLSF::<()>::first_one_after_at(0b1000, 4), None);
    let two_bits = (1u64 << 3) | (1u64 << 10);
    assert_eq!(TLSF::<()>::first_one_after_at(two_bits, 0), Some(3));
    assert_eq!(TLSF::<()>::first_one_after_at(two_bits, 4), Some(10));
    assert_eq!(TLSF::<()>::first_one_after_at(two_bits, 11), None);
    assert_eq!(TLSF::<()>::first_one_after_at(1u64 << 63, 0), Some(63));
    assert_eq!(TLSF::<()>::first_one_after_at(1u64 << 63, 63), Some(63));
    assert_eq!(TLSF::<()>::first_one_after_at(u64::MAX, 17), Some(17));
}
