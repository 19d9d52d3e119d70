use axfs_ramfs::bump::{is_power_of_two, AllocError, EarlyAllocator};

#[test]
fn bytes_grow_up_and_roll_back() {
    let mut a: EarlyAllocator<4096> = EarlyAllocator::new();
    a.init(0x1000, 0x10000);
    assert_eq!(a.total_bytes(), 0x10000);
    assert_eq!(a.alloc_bytes(10, 8), Ok(0x1000));
    assert_eq!(a.alloc_bytes(4, 16), Ok(0x1010));
    assert_eq!(a.used_bytes(), 0x14);
    a.dealloc(0x1010, 4);
    assert_eq!(a.used_bytes(), 0x10);
    assert_eq!(a.available_bytes(), 0x10000 - 0x10);
    assert_eq!(a.add_memory(0, 10), Err(AllocError::NoMemory));
}

#[test]
fn pages_grow_down() {
    let mut a: EarlyAllocator<4096> = EarlyAllocator::new();
    a.init(0x10000, 0x10000);
    assert_eq!(a.total_pages(), 16);
    assert_eq!(a.alloc_pages(2, 4096), Ok(0x1e000));
    assert_eq!(a.used_pages(), 2);
    assert_eq!(a.alloc_pages(1, 0x4000), Ok(0x1c000));
    assert_eq!(a.available_pages(), 12);
    assert_eq!(a.alloc_pages(1, 100), Err(AllocError::InvalidParam));
    assert_eq!(a.alloc_pages(1, 3 * 4096), Err(AllocError::InvalidParam));
    assert_eq!(a.alloc_pages(64, 4096), Err(AllocError::NoMemory));
    a.dealloc_pages(0x1e000, 2);
    assert_eq!(a.used_pages(), 2);
}

#[test]
fn bytes_and_pages_meet() {
    let mut a: EarlyAllocator<4096> = EarlyAllocator::new();
    a.init(0, 0x2000);
    assert_eq!(a.alloc_pages(1, 4096), Ok(0x1000));
    assert_eq!(a.alloc_bytes(0x1001, 1), Err(AllocError::NoMemory));
    assert_eq!(a.alloc_bytes(0x1000, 1), Ok(0));
    assert_eq!(a.alloc_pages(1, 4096), Err(AllocError::NoMemory));
}

#[test]
fn power_of_two() {
    assert!(is_power_of_two(1));
    assert!(is_power_of_two(64));
    assert!(!is_power_of_two(0));
    assert!(!is_power_of_two(12));
}
