use shellcore::mm::address::{
    PageSize, PhysAddr, PhysPageNum, SimpleRange, VirtAddr, VirtPageNum, PAGE_SIZE,
};

#[test]
fn page_sizes() {
    assert_eq!(PageSize::Page4K.size(), 4096);
    assert_eq!(PageSize::Page2M.size(), 0x20_0000);
    assert_eq!(PageSize::Page1G.size(), 0x4000_0000);
    assert_eq!(PageSize::Page2M.size_bits(), 21);
    assert_eq!(PageSize::Page1G.num_pages(), 262_144);
    assert_eq!(PageSize::Page1G.walk_level(), 0);
    assert_eq!(PageSize::Page4K.walk_level(), 2);
}

#[test]
fn floor_and_ceil() {
    let va = VirtAddr(0x1234);
    assert_eq!(va.std_floor(), VirtPageNum(1));
    assert_eq!(va.std_ceil(), VirtPageNum(2));
    assert_eq!(VirtAddr(0).std_ceil(), VirtPageNum(0));
    assert_eq!(VirtAddr(0x2000).std_ceil(), VirtPageNum(2));
    assert_eq!(va.std_page_offset(), 0x234);
    assert!(!va.std_aligned());
    assert!(VirtAddr(2 * PAGE_SIZE).std_aligned());
    assert!(VirtAddr(0x40_0000).actual_aligned(PageSize::Page2M));
    assert!(!VirtAddr(0x40_1000).actual_aligned(PageSize::Page2M));
    assert_eq!(VirtAddr(0x40_1005).actual_page_offset(PageSize::Page2M), 0x1005);
    assert_eq!(PhysAddr(0x8020_0fff).std_floor(), PhysPageNum(0x80200));
    assert_eq!(PhysAddr(0x8020_0fff).std_ceil(), PhysPageNum(0x80201));
}

#[test]
fn addresses_of_the_upper_half_are_extended() {
    let va = VirtAddr::from(0xffff_ffff_ffff_f000);
    assert_eq!(va, VirtAddr(0x7f_ffff_f000));
    assert_eq!(u64::from(va), 0xffff_ffff_ffff_f000);
    assert_eq!(u64::from(VirtAddr(0x1000)), 0x1000);
}

#[test]
fn a_page_comes_back_from_its_address() {
    let page = VirtPageNum(0x12345);
    assert_eq!(VirtAddr::from(page).page(), page);
    assert_eq!(PhysAddr::from(PhysPageNum(0x80200)), PhysAddr(0x8020_0000));
}

#[test]
fn indexes_of_the_three_levels() {
    let page = VirtPageNum(3 * 512 * 512 + 5 * 512 + 7);
    assert_eq!(page.indexes(), [3, 5, 7]);
    assert_eq!(VirtPageNum(0x7ff_ffff).indexes(), [511, 511, 511]);
}

#[test]
fn ranges_are_walked_in_order() {
    let range = SimpleRange::new(VirtPageNum(3), VirtPageNum(6));
    assert!(range.contains(VirtPageNum(5)));
    assert!(!range.contains(VirtPageNum(6)));
    let mut iter = range.into_iter();
    assert_eq!(iter.next(), Some(VirtPageNum(3)));
    assert_eq!(iter.next(), Some(VirtPageNum(4)));
    assert_eq!(iter.next(), Some(VirtPageNum(5)));
    assert_eq!(iter.next(), None);
    let mut steps = SimpleRange::new(VirtPageNum(0), VirtPageNum(1024)).add_step(512).into_iter();
    assert_eq!(steps.next(), Some(VirtPageNum(0)));
    assert_eq!(steps.next(), Some(VirtPageNum(512)));
    assert_eq!(steps.next(), None);
}
