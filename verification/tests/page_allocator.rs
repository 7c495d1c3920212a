use kernel::kmem::page::{
    align_roundup, alloc_pages, dealloc, dealloc_internal, free_step, init, page_available,
    print_page, print_usage, search_page, DeallocError, FreeStep, Freed, HeapDiagnostics,
    MemoryPage, PageRun, PageStatus,
    PAGE_ORDER, PAGE_SIZE,
};

const HEAP_START: usize = 0x8020_0000;
const PAGES: usize = 128;
const ALLOC_START: usize = 0x8020_1000;

fn fresh_heap() -> HeapDiagnostics {
    let garbage = vec![0xaau8; PAGES];
    let mut h = HeapDiagnostics::new(HEAP_START, PAGES * PAGE_SIZE, 0, &garbage);
    init(&mut h);
    h
}

fn page_addr(i: usize) -> usize {
    ALLOC_START + i * PAGE_SIZE
}

fn run(index: usize, pages: usize) -> PageRun {
    PageRun { index, address: page_addr(index), pages }
}

#[test]
fn new_keeps_descriptors_and_layout() {
    let desc = vec![0u8, 1, 3, 0];
    let h = HeapDiagnostics::new(0x1000, 4 * PAGE_SIZE + 17, 0x42, &desc);
    assert_eq!(h.max_pages(), 4);
    assert_eq!(h.heap_size(), 4 * PAGE_SIZE + 17);
    assert_eq!(h.alloc_start(), 0x42);
    assert_eq!(h.offset_as_ptr(), 0x1000);
    assert_eq!(h.offset_as_ptr_mut(), 0x1000);
    assert_eq!(h.limit_as_ptr(), 0x1004);
    assert_eq!(h.status(1), 1);
    assert_eq!(h.status(2), 3);
}

#[test]
fn init_clears_table_and_places_page_area() {
    let h = fresh_heap();
    assert_eq!(h.alloc_start(), ALLOC_START);
    for i in 0..PAGES {
        assert_eq!(h.status(i), 0);
    }
    // the table end is already page aligned: the page area starts right there
    let desc = vec![7u8; 0];
    let mut h2 = HeapDiagnostics::new(0x3000, 0, 5, &desc);
    init(&mut h2);
    assert_eq!(h2.alloc_start(), 0x3000);
}

#[test]
fn kernel_allocation_scenario() {
    let mut h = fresh_heap();
    let a0 = alloc_pages(&mut h, 64);
    let p1 = alloc_pages(&mut h, 1);
    let p2 = alloc_pages(&mut h, 1);
    let a3 = alloc_pages(&mut h, 1);
    assert_eq!(a0, page_addr(0));
    assert_eq!(p1, page_addr(64));
    assert_eq!(p2, page_addr(65));
    assert_eq!(a3, page_addr(66));

    let report = print_page(&h);
    assert_eq!(report.layout.meta_begin, HEAP_START);
    assert_eq!(report.layout.meta_end, HEAP_START + PAGES);
    assert_eq!(report.layout.phys_begin, ALLOC_START);
    assert_eq!(report.layout.phys_end, ALLOC_START + PAGES * PAGE_SIZE);
    assert_eq!(report.runs, vec![run(0, 64), run(64, 1), run(65, 1), run(66, 1)]);
    assert_eq!(report.usage.allocated_pages, 67);
    assert_eq!(report.usage.allocated_bytes, 67 * 4096);
    assert_eq!(report.usage.free_pages, 61);
    assert_eq!(report.usage.free_bytes, 61 * 4096);

    assert_eq!(dealloc(&mut h, p1), Ok(Freed::InTable));
    assert_eq!(dealloc(&mut h, p2), Ok(Freed::InTable));
    let report = print_page(&h);
    assert_eq!(report.runs, vec![run(0, 64), run(66, 1)]);
    assert_eq!(report.usage.allocated_pages, 65);

    // pages 64 and 65 are free but 66 is not: three pages go after it
    let p3 = alloc_pages(&mut h, 3);
    assert_eq!(p3, page_addr(67));
    let report = print_page(&h);
    assert_eq!(report.runs, vec![run(0, 64), run(66, 1), run(67, 3)]);
    assert_eq!(report.usage.allocated_pages, 68);
}

#[test]
fn allocation_marks_used_and_last() {
    let mut h = fresh_heap();
    let a = alloc_pages(&mut h, 3);
    assert_eq!(a, ALLOC_START);
    assert_eq!(h.status(0), 1);
    assert_eq!(h.status(1), 1);
    assert_eq!(h.status(2), 3);
    assert_eq!(h.status(3), 0);
}

#[test]
fn search_range_stops_before_the_last_start() {
    // the search covers start pages below max_pages - pages only
    let mut h = fresh_heap();
    assert_eq!(alloc_pages(&mut h, PAGES), 0);
    assert_eq!(alloc_pages(&mut h, PAGES - 1), ALLOC_START);
    assert_eq!(alloc_pages(&mut h, 1), 0);
    assert_eq!(print_page(&h).usage.allocated_pages, PAGES - 1);
}

#[test]
fn failed_allocation_leaves_table_unchanged() {
    let mut h = fresh_heap();
    assert_eq!(alloc_pages(&mut h, 100), ALLOC_START);
    assert_eq!(alloc_pages(&mut h, 28), 0);
    assert_eq!(h.status(100), 0);
    assert_eq!(print_page(&h).runs, vec![run(0, 100)]);
}

#[test]
fn dealloc_undoes_alloc() {
    let mut h = fresh_heap();
    alloc_pages(&mut h, 5);
    let before: Vec<u8> = (0..PAGES).map(|i| h.status(i)).collect();
    let a = alloc_pages(&mut h, 4);
    assert_eq!(a, page_addr(5));
    assert_eq!(dealloc(&mut h, a), Ok(Freed::InTable));
    let after: Vec<u8> = (0..PAGES).map(|i| h.status(i)).collect();
    assert_eq!(before, after);
}

#[test]
fn second_dealloc_is_a_double_free() {
    let mut h = fresh_heap();
    let a = alloc_pages(&mut h, 2);
    assert_eq!(dealloc(&mut h, a), Ok(Freed::InTable));
    assert_eq!(dealloc(&mut h, a), Err(DeallocError::DoubleFree));
    assert_eq!(print_page(&h).usage.allocated_pages, 0);
}

#[test]
fn dealloc_errors() {
    let mut h = fresh_heap();
    alloc_pages(&mut h, 1);
    assert_eq!(dealloc(&mut h, 0), Err(DeallocError::NullPointer));
    assert_eq!(dealloc(&mut h, ALLOC_START - 1), Err(DeallocError::PageNotFound));
    // page numbers are bounded by the heap's size in bytes, not its page count
    assert_eq!(
        dealloc(&mut h, ALLOC_START + PAGES * PAGE_SIZE * PAGE_SIZE),
        Err(DeallocError::PageNotFound)
    );
    assert_eq!(
        dealloc(&mut h, page_addr(PAGES + 3) + 5),
        Ok(Freed::WalkMemory { descriptor: HEAP_START + PAGES + 3 })
    );
    assert_eq!(h.status(0), 3);
    assert_eq!(dealloc(&mut h, page_addr(7)), Err(DeallocError::DoubleFree));
    assert_eq!(h.status(0), 3);
}

#[test]
fn dealloc_inside_an_allocation_frees_its_tail() {
    let mut h = fresh_heap();
    let a = alloc_pages(&mut h, 4);
    // an address inside the second page
    assert_eq!(dealloc_internal(a + PAGE_SIZE + 10, &mut h), Ok(Freed::InTable));
    assert_eq!(h.status(0), 1);
    assert_eq!(h.status(1), 0);
    assert_eq!(h.status(2), 0);
    assert_eq!(h.status(3), 0);
    let report = print_page(&h);
    assert_eq!(report.runs, vec![run(0, 1)]);
    // the head now runs into an empty page: refused, after clearing it
    assert_eq!(dealloc(&mut h, a), Err(DeallocError::DoubleFree));
    assert_eq!(h.status(0), 0);
}

#[test]
fn page_address_round_trip() {
    let h = fresh_heap();
    assert_eq!(h.page_to_address(0), Some(ALLOC_START));
    assert_eq!(h.page_to_address(9), Some(page_addr(9)));
    assert_eq!(h.page_from_address(page_addr(9) + 123), Some(9));
    assert_eq!(h.page_from_address(ALLOC_START - 4096), None);
    assert_eq!(h.page_from_address(page_addr(PAGES * PAGE_SIZE)), None);
    assert_eq!(h.page_from_address(page_addr(PAGES * PAGE_SIZE - 1)), Some(PAGES * PAGE_SIZE - 1));
}

#[test]
fn skip_and_count() {
    let desc = vec![0u8, 0, 1, 1, 3, 3, 1, 0];
    let mut h = HeapDiagnostics::new(0, 8 * PAGE_SIZE, 0, &desc);
    assert_eq!(h.skip_empty(0, 8), 2);
    assert_eq!(h.skip_empty(0, 1), 1);
    assert_eq!(h.skip_empty(2, 8), 0);
    assert_eq!(h.count_used(2, 8), 3);
    assert_eq!(h.count_used(2, 4), 2);
    assert_eq!(h.count_used(5, 8), 1);
    assert_eq!(h.count_used(6, 8), 1);
    assert_eq!(h.count_used(7, 8), 0);
    assert!(page_available(&h, 7, 1));
    assert!(!page_available(&h, 5, 2));
    init(&mut h);
    assert_eq!(h.skip_empty(0, 8), 8);
}

#[test]
fn search_is_first_fit() {
    let mut h = fresh_heap();
    alloc_pages(&mut h, 2);
    let b = alloc_pages(&mut h, 2);
    alloc_pages(&mut h, 2);
    dealloc(&mut h, b).unwrap();
    assert_eq!(search_page(3, &h), Some(6));
    assert_eq!(search_page(2, &h), Some(2));
    assert_eq!(search_page(PAGES, &h), None);
}

#[test]
fn mark_as_used_and_free() {
    let mut h = fresh_heap();
    assert_eq!(h.mark_as_used(10, 2), page_addr(10));
    assert_eq!(h.status(10), 1);
    assert_eq!(h.status(11), 3);
    assert_eq!(h.mark_as_free(10), Ok(()));
    assert_eq!(h.status(11), 0);
    assert_eq!(h.mark_as_free(10), Err(DeallocError::DoubleFree));
}

#[test]
fn usage_numbers() {
    let u = print_usage(3, 10);
    assert_eq!(u.allocated_pages, 3);
    assert_eq!(u.allocated_bytes, 12288);
    assert_eq!(u.free_pages, 7);
    assert_eq!(u.free_bytes, 28672);
    let h = fresh_heap();
    let r = print_page(&h);
    assert!(r.runs.is_empty());
    assert_eq!(r.usage.allocated_pages, 0);
    assert_eq!(r.usage.free_pages, PAGES);
}

#[test]
fn align_roundup_values() {
    assert_eq!(align_roundup(0, PAGE_ORDER), 0);
    assert_eq!(align_roundup(1, PAGE_ORDER), 4096);
    assert_eq!(align_roundup(4096, PAGE_ORDER), 4096);
    assert_eq!(align_roundup(4097, PAGE_ORDER), 8192);
    assert_eq!(align_roundup(5, 0), 5);
    assert_eq!(align_roundup(9, 3), 16);
}

#[test]
fn memory_page_flags() {
    let mut p = MemoryPage { status: 0 };
    assert!(p.is_empty());
    assert!(!p.is_used());
    p.update_status(PageStatus::Used);
    assert_eq!(p.status, 1);
    assert!(p.is_used() && !p.is_last() && !p.is_empty());
    p.update_status(PageStatus::Last);
    assert_eq!(p.status, 3);
    assert!(p.is_last());
    p.update_status(PageStatus::Empty);
    assert_eq!(p.status, 3);
    p.clear();
    assert_eq!(p.status, 0);
    assert_eq!(PageStatus::Empty.val(), 0);
    assert_eq!(PageStatus::Used.val(), 1);
    assert_eq!(PageStatus::Last.val(), 2);
}

#[test]
fn skip_and_count_past_the_limit() {
    let desc = vec![0u8, 1, 3, 0];
    let h = HeapDiagnostics::new(0, 4 * PAGE_SIZE, 0, &desc);
    assert_eq!(h.skip_empty(3, 1), 0);
    assert_eq!(h.skip_empty(2, 2), 0);
    assert_eq!(h.count_used(2, 1), 0);
    assert_eq!(h.count_used(4, 0), 0);
}

#[test]
fn page_to_address_past_the_table() {
    let h = fresh_heap();
    assert_eq!(h.page_to_address(PAGES - 1), Some(page_addr(PAGES - 1)));
    assert_eq!(h.page_to_address(PAGES), None);
    assert_eq!(h.page_to_address(PAGES + 5), None);
}

#[test]
fn two_reports_of_one_table_agree() {
    let mut h = fresh_heap();
    alloc_pages(&mut h, 3);
    let b = alloc_pages(&mut h, 2);
    alloc_pages(&mut h, 1);
    dealloc(&mut h, b).unwrap();
    let r1 = print_page(&h);
    let r2 = print_page(&h);
    assert_eq!(r1.runs, r2.runs);
    assert_eq!(r1.usage, r2.usage);
    assert_eq!(r1.layout, r2.layout);
    assert_eq!(r1.runs, vec![run(0, 3), run(5, 1)]);
}

#[test]
fn free_step_decisions() {
    assert_eq!(free_step(0), FreeStep::DoubleFree);
    assert_eq!(free_step(1), FreeStep::ClearAndContinue);
    assert_eq!(free_step(3), FreeStep::ClearAndFinish);
    assert_eq!(free_step(2), FreeStep::ClearAndFinish);
    assert_eq!(free_step(0x41), FreeStep::ClearAndContinue);
    assert_eq!(free_step(0x80), FreeStep::DoubleFree);
}
