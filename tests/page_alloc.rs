use marrakech::page::{
    allocate_page_block, free_block, initialize_page_index, print_page_allocations,
    zero_allocate_page_block, Page, PageAllocator, PAGE_SIZE,
};
use marrakech::uart::UART;

const HEAP_START: usize = 0x8000_0000;

fn sixteen_frames() -> PageAllocator {
    initialize_page_index(HEAP_START, 16 * PAGE_SIZE)
}

fn frame(a: &PageAllocator, i: usize) -> Page {
    a.page(i).unwrap()
}

fn is_free(a: &PageAllocator, i: usize) -> bool {
    let p = frame(a, i);
    !p.allocated() && !p.last()
}

fn snapshot(a: &PageAllocator) -> Vec<Page> {
    (0..a.frame_count()).map(|i| frame(a, i)).collect()
}

#[test]
fn initialize_clears_index_and_places_base() {
    let a = sixteen_frames();
    assert_eq!(a.frame_count(), 16);
    assert_eq!(a.region_start(), HEAP_START);
    assert_eq!(a.region_size(), 16 * 4096);
    // 16 descriptor bytes, rounded up to the next frame boundary
    assert_eq!(a.allocation_base(), HEAP_START + 4096);
    for i in 0..16 {
        assert!(is_free(&a, i));
    }
    assert!(a.page(16).is_none());
}

#[test]
fn initialize_ignores_partial_trailing_frame() {
    let a = initialize_page_index(0x1000, 3 * 4096 + 100);
    assert_eq!(a.frame_count(), 3);
    assert_eq!(a.allocation_base(), 0x2000);
}

#[test]
fn initialize_aligns_unaligned_start() {
    let a = initialize_page_index(0x1001, 2 * 4096);
    assert_eq!(a.allocation_base(), 0x2000);
    let b = initialize_page_index(0x0ff0, 16 * 4096);
    assert_eq!(b.allocation_base(), 0x1000);
}

#[test]
fn page_address_of_frames() {
    let a = sixteen_frames();
    assert_eq!(a.page_address(0), HEAP_START + 0x1000);
    assert_eq!(a.page_address(3), HEAP_START + 0x4000);
    assert_eq!(a.page_address(16), HEAP_START + 0x11000);
}

#[test]
fn scenario_sixteen_frames() {
    let mut a = sixteen_frames();
    let base = a.allocation_base();

    let b1 = allocate_page_block(&mut a, 10);
    assert_eq!(b1, Some(base));
    for i in 0..10 {
        assert!(frame(&a, i).allocated());
        assert_eq!(frame(&a, i).last(), i == 9);
    }

    let b2 = allocate_page_block(&mut a, 5);
    assert_eq!(b2, Some(base + 10 * 4096));
    for i in 10..15 {
        assert!(frame(&a, i).allocated());
        assert_eq!(frame(&a, i).last(), i == 14);
    }
    assert!(is_free(&a, 15));

    let before = snapshot(&a);
    let b3 = allocate_page_block(&mut a, 20);
    assert_eq!(b3, None);
    assert_eq!(snapshot(&a), before);

    assert!(free_block(&mut a, b2.unwrap()));
    for i in 10..16 {
        assert!(is_free(&a, i));
    }
    for i in 0..10 {
        assert!(frame(&a, i).allocated());
    }

    let b4 = allocate_page_block(&mut a, 5);
    assert_eq!(b4, Some(base + 10 * 4096));
}

#[test]
fn allocate_zero_frames_is_refused() {
    let mut a = sixteen_frames();
    allocate_page_block(&mut a, 3);
    let before = snapshot(&a);
    assert_eq!(allocate_page_block(&mut a, 0), None);
    assert_eq!(snapshot(&a), before);
}

#[test]
fn allocate_is_first_fit() {
    let mut a = sixteen_frames();
    let base = a.allocation_base();
    let x = allocate_page_block(&mut a, 2).unwrap();
    let y = allocate_page_block(&mut a, 3).unwrap();
    let _z = allocate_page_block(&mut a, 2).unwrap();
    assert_eq!(x, base);
    assert_eq!(y, base + 2 * 4096);
    assert!(free_block(&mut a, y));
    // too large for the hole of three frames: goes past the last block
    assert_eq!(allocate_page_block(&mut a, 4), Some(base + 7 * 4096));
    // fits the hole
    assert_eq!(allocate_page_block(&mut a, 2), Some(base + 2 * 4096));
    assert_eq!(allocate_page_block(&mut a, 1), Some(base + 4 * 4096));
}

#[test]
fn allocate_never_uses_the_last_frame() {
    let mut a = sixteen_frames();
    // candidate start frames are those below frame_count - n
    assert_eq!(allocate_page_block(&mut a, 16), None);
    assert_eq!(allocate_page_block(&mut a, 15), Some(a.allocation_base()));
    assert!(is_free(&a, 15));
}

#[test]
fn allocate_until_exhaustion() {
    let mut a = sixteen_frames();
    let base = a.allocation_base();
    let mut got = Vec::new();
    loop {
        match allocate_page_block(&mut a, 1) {
            Some(addr) => got.push(addr),
            None => break,
        }
    }
    assert_eq!(got.len(), 15);
    for (k, addr) in got.iter().enumerate() {
        assert_eq!(*addr, base + k * 4096);
        assert_eq!((addr - base) % 4096, 0);
    }
    let before = snapshot(&a);
    assert_eq!(allocate_page_block(&mut a, 1), None);
    assert_eq!(snapshot(&a), before);
}

#[test]
fn allocate_then_free_restores_frames() {
    let mut a = sixteen_frames();
    let initial = snapshot(&a);
    let addr = allocate_page_block(&mut a, 4).unwrap();
    assert_eq!((addr - a.allocation_base()) % PAGE_SIZE, 0);
    assert!(free_block(&mut a, addr));
    assert_eq!(snapshot(&a), initial);
}

#[test]
fn free_then_allocate_reuses_frames() {
    let mut a = sixteen_frames();
    let first = allocate_page_block(&mut a, 3).unwrap();
    allocate_page_block(&mut a, 2).unwrap();
    assert!(free_block(&mut a, first));
    assert_eq!(allocate_page_block(&mut a, 3), Some(first));
}

#[test]
fn zero_allocate_clears_block() {
    let mut a = sixteen_frames();
    let base = a.allocation_base();
    let addr = allocate_page_block(&mut a, 2).unwrap();
    for off in [0usize, 1, 4095, 4096, 8191] {
        assert!(a.write_byte(addr + off, 0xab));
    }
    assert!(a.write_byte(addr + 8192, 0xcd));
    assert!(free_block(&mut a, addr));
    let z = zero_allocate_page_block(&mut a, 2).unwrap();
    assert_eq!(z, base);
    for off in 0..2 * 4096 {
        assert_eq!(a.read_byte(z + off), Some(0));
    }
    // the byte after the block is not part of it
    assert_eq!(a.read_byte(z + 8192), Some(0xcd));
}

#[test]
fn zero_allocate_failure_changes_nothing() {
    let mut a = sixteen_frames();
    let base = a.allocation_base();
    assert!(a.write_byte(base, 7));
    let before = snapshot(&a);
    assert_eq!(zero_allocate_page_block(&mut a, 0), None);
    assert_eq!(zero_allocate_page_block(&mut a, 40), None);
    assert_eq!(snapshot(&a), before);
    assert_eq!(a.read_byte(base), Some(7));
}

#[test]
fn read_and_write_outside_frames() {
    let mut a = sixteen_frames();
    let base = a.allocation_base();
    assert_eq!(a.read_byte(base - 1), None);
    assert_eq!(a.read_byte(base + 16 * 4096), None);
    assert!(!a.write_byte(base + 16 * 4096, 1));
    assert!(a.write_byte(base + 16 * 4096 - 1, 9));
    assert_eq!(a.read_byte(base + 16 * 4096 - 1), Some(9));
}

#[test]
fn free_rejects_addresses_out_of_range() {
    let mut a = sixteen_frames();
    let addr = allocate_page_block(&mut a, 2).unwrap();
    let before = snapshot(&a);
    let base = a.allocation_base();
    assert!(!free_block(&mut a, 0));
    assert!(!free_block(&mut a, base - 1));
    assert!(!free_block(&mut a, HEAP_START));
    assert!(!free_block(&mut a, HEAP_START + 16 * 4096));
    assert!(!free_block(&mut a, usize::MAX));
    assert_eq!(snapshot(&a), before);
    assert!(free_block(&mut a, addr));
}

#[test]
fn free_rejects_address_past_last_frame() {
    // start 16 bytes below a frame boundary: the descriptors fill exactly
    // up to it, and the partial trailing frame leaves room past frame 15
    let start = 0x1_0000 - 16;
    let mut a = initialize_page_index(start, 16 * 4096 + 4095);
    assert_eq!(a.allocation_base(), 0x1_0000);
    let past = a.allocation_base() + 16 * 4096;
    assert!(past < start + 16 * 4096 + 4095);
    allocate_page_block(&mut a, 1).unwrap();
    let before = snapshot(&a);
    assert!(!free_block(&mut a, past));
    assert_eq!(snapshot(&a), before);
}

#[test]
fn free_of_free_frame_fails() {
    let mut a = sixteen_frames();
    let before = snapshot(&a);
    let base = a.allocation_base();
    assert!(!free_block(&mut a, base));
    assert_eq!(snapshot(&a), before);
}

#[test]
fn free_twice_fails_the_second_time() {
    let mut a = sixteen_frames();
    let addr = allocate_page_block(&mut a, 3).unwrap();
    assert!(free_block(&mut a, addr));
    assert!(!free_block(&mut a, addr));
}

#[test]
fn free_misaligned_address_frees_containing_block() {
    let mut a = sixteen_frames();
    let addr = allocate_page_block(&mut a, 2).unwrap();
    assert!(free_block(&mut a, addr + 100));
    assert!(is_free(&a, 0));
    assert!(is_free(&a, 1));
}

#[test]
fn free_from_interior_frame_frees_the_rest_of_the_block() {
    let mut a = sixteen_frames();
    let addr = allocate_page_block(&mut a, 3).unwrap();
    assert!(free_block(&mut a, addr + 4096));
    assert!(frame(&a, 0).allocated());
    assert!(!frame(&a, 0).last());
    assert!(is_free(&a, 1));
    assert!(is_free(&a, 2));
}

#[test]
fn failed_free_keeps_partial_clearing() {
    // the walk clears frames as it goes; a later failure does not undo them
    let mut a = sixteen_frames();
    let addr = allocate_page_block(&mut a, 3).unwrap();
    assert!(free_block(&mut a, addr + 4096));
    // frame 0 is allocated with no tail after it
    assert!(!free_block(&mut a, addr));
    assert!(is_free(&a, 0));
}

#[test]
fn failed_free_at_end_of_index() {
    // a block whose tail was lost runs into the end of the index
    let mut a = initialize_page_index(HEAP_START, 4 * 4096);
    let addr = allocate_page_block(&mut a, 3).unwrap();
    assert!(free_block(&mut a, addr + 2 * 4096));
    assert!(!free_block(&mut a, addr));
    assert!(is_free(&a, 0));
    assert!(is_free(&a, 1));
}

#[test]
fn page_flags() {
    let mut p = Page::new();
    assert!(!p.allocated());
    assert!(!p.last());
    p.allocate();
    assert!(p.allocated());
    assert!(!p.last());
    p.mark_last();
    assert!(p.allocated());
    assert!(p.last());
    p.mark_not_last();
    assert!(p.allocated());
    assert!(!p.last());
    p.mark_last();
    p.free();
    assert!(!p.allocated());
    assert!(!p.last());
    p.mark_last();
    assert!(!p.allocated());
    assert!(p.last());
    p.clear();
    assert_eq!(p, Page::new());
}

#[test]
fn report_of_scenario() {
    let mut a = sixteen_frames();
    let _b1 = allocate_page_block(&mut a, 10);
    let b2 = allocate_page_block(&mut a, 5);
    let _b3 = allocate_page_block(&mut a, 20);
    let mut uart = UART::new(0x1000_0000);
    print_page_allocations(&a, &mut uart);
    let text = String::from_utf8(uart.take_pending()).unwrap();
    assert_eq!(
        text,
        "Page Allocations\n\
         page block allocated : 0x80001000 --> 0x8000a000 .\n\
         page block allocated : 0x8000b000 --> 0x8000f000 .\n"
    );
    assert!(free_block(&mut a, b2.unwrap()));
    print_page_allocations(&a, &mut uart);
    let text = String::from_utf8(uart.take_pending()).unwrap();
    assert_eq!(
        text,
        "Page Allocations\n\
         page block allocated : 0x80001000 --> 0x8000a000 .\n"
    );
}

#[test]
fn report_of_empty_index() {
    let a = sixteen_frames();
    let mut uart = UART::new(0);
    print_page_allocations(&a, &mut uart);
    assert_eq!(uart.take_pending(), b"Page Allocations\n".to_vec());
}

#[test]
fn report_of_block_without_tail() {
    let mut a = initialize_page_index(0x1000, 4 * 4096);
    let addr = allocate_page_block(&mut a, 3).unwrap();
    assert!(free_block(&mut a, addr + 2 * 4096));
    let mut uart = UART::new(0);
    print_page_allocations(&a, &mut uart);
    let text = String::from_utf8(uart.take_pending()).unwrap();
    assert_eq!(
        text,
        "Page Allocations\n\
         invalid page allocation foundpage block allocated : 0x2000 --> 0x4000 .\n"
    );
}
