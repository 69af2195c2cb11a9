use search_trees::trees::page::{
    BtreeError, Cell, Page, PageHeader, PageKind, HEADER_SIZE, PAGE_SIZE, SLOT_SIZE,
};

fn leaf_page(keys: &[i64]) -> Page {
    let mut page = Page::zeroed();
    page.reset_and_fill(7, PageKind::Leaf, 0, &[]).unwrap();
    for k in keys {
        page.add_cell(&k.to_le_bytes()).unwrap();
    }
    page
}

fn keys(page: &Page) -> Vec<i64> {
    page.get_cells().unwrap().iter().map(|c| c.key).collect()
}

#[test]
fn page_header_roundtrip() {
    let h = PageHeader {
        id: 0x0102_0304,
        page_ty: PageKind::Internal,
        free_start: 20,
        free_end: 4000,
        total_size: 4096,
        flags: 3,
        rightmost_ptr: 0xdead_beef,
    };
    let mut buf = [0u8; HEADER_SIZE];
    h.serialize(&mut buf);
    assert_eq!(buf[0..4], [4, 3, 2, 1]);
    assert_eq!(buf[4], 1);
    assert_eq!(buf[12..16], [0xef, 0xbe, 0xad, 0xde]);
    let back = PageHeader::deserialize(&buf).unwrap();
    assert_eq!(back.id, h.id);
    assert_eq!(back.page_ty, h.page_ty);
    assert_eq!(back.free_start, h.free_start);
    assert_eq!(back.free_end, h.free_end);
    assert_eq!(back.total_size, h.total_size);
    assert_eq!(back.flags, h.flags);
    assert_eq!(back.rightmost_ptr, h.rightmost_ptr);
}

#[test]
fn page_header_with_bad_kind_does_not_parse() {
    let mut buf = [0u8; HEADER_SIZE];
    buf[4] = 3;
    assert!(PageHeader::deserialize(&buf).is_none());
    assert_eq!(PageKind::from_u8(2), Some(PageKind::Leaf));
    assert_eq!(PageKind::from_u8(9), None);
}

#[test]
fn page_add_cell_keeps_keys_in_order() {
    let mut page = leaf_page(&[30, 10]);
    assert_eq!(page.add_cell(&20i64.to_le_bytes()), Ok(3));
    assert_eq!(keys(&page), vec![10, 20, 30]);
    let hdr = page.header().unwrap();
    assert_eq!(hdr.free_start as usize, HEADER_SIZE + 3 * SLOT_SIZE);
    assert_eq!(hdr.free_end as usize, PAGE_SIZE - 3 * 8);
    assert_eq!(page.num_slots(), 3);
}

#[test]
fn page_add_cell_reports_overflow() {
    let mut page = leaf_page(&[]);
    let fit = (PAGE_SIZE - HEADER_SIZE) / (8 + SLOT_SIZE);
    for k in 0..fit as i64 {
        page.add_cell(&k.to_le_bytes()).unwrap();
    }
    assert_eq!(page.add_cell(&(-1i64).to_le_bytes()), Err(BtreeError::PageOverflow));
    assert_eq!(page.get_cells().unwrap().len(), fit);
}

#[test]
fn page_remove_cell() {
    let mut page = leaf_page(&[5, 1, 3]);
    let copy = page.remove_cell(1).unwrap();
    assert_eq!(keys(&page), vec![1, 5]);
    assert_eq!(keys(&copy), vec![1, 5]);
    assert_eq!(page.remove_cell(2).err(), Some(BtreeError::IndexOutOfBounds));
    assert_eq!(keys(&page), vec![1, 5]);
}

#[test]
fn page_internal_cells_carry_child_pointers() {
    let mut page = Page::zeroed();
    let cells = [Cell { key: 50, c_ptr: Some(4) }, Cell { key: 10, c_ptr: Some(2) }];
    page.reset_and_fill(9, PageKind::Internal, 6, &cells).unwrap();
    let got = page.get_cells().unwrap();
    assert_eq!(got, vec![Cell { key: 10, c_ptr: Some(2) }, Cell { key: 50, c_ptr: Some(4) }]);
    page.set_child_ptr_at(1, 8).unwrap();
    page.set_rightmost_ptr(11).unwrap();
    let hdr = page.header().unwrap();
    assert_eq!(hdr.rightmost_ptr, 11);
    assert_eq!(hdr.id, 9);
    assert_eq!(page.get_cells().unwrap()[1], Cell { key: 50, c_ptr: Some(8) });
}

#[test]
fn page_set_page_ty() {
    let mut page = leaf_page(&[1]);
    page.set_page_ty(PageKind::Leaf).unwrap();
    assert_eq!(page.header().unwrap().page_ty, PageKind::Leaf);
    let mut root = Page::zeroed();
    root.reset_and_fill(3, PageKind::Root, 1, &[]).unwrap();
    root.set_page_ty(PageKind::Internal).unwrap();
    assert_eq!(root.header().unwrap().page_ty, PageKind::Internal);
}

#[test]
fn page_slot_and_cell_bytes() {
    let page = leaf_page(&[42]);
    let slot = page.slot(0);
    assert_eq!(slot.cell_offset as usize, PAGE_SIZE - 8);
    assert_eq!(slot.cell_size, 8);
    assert_eq!(page.cell(0), &42i64.to_le_bytes());
}

#[test]
fn page_fill_that_does_not_fit_keeps_a_prefix() {
    let mut page = Page::zeroed();
    let cells: Vec<Cell> = (0..400).map(|k| Cell { key: k, c_ptr: None }).collect();
    assert_eq!(page.reset_and_fill(1, PageKind::Leaf, 0, &cells), Err(BtreeError::PageOverflow));
    let fit = (PAGE_SIZE - HEADER_SIZE) / (8 + SLOT_SIZE);
    assert_eq!(keys(&page), (0..fit as i64).collect::<Vec<i64>>());
}

#[test]
fn page_add_cell_on_a_zero_page_overflows() {
    let mut page = Page::zeroed();
    assert_eq!(page.add_cell(&5i64.to_le_bytes()), Err(BtreeError::PageOverflow));
    let hdr = page.header().unwrap();
    assert_eq!(hdr.free_start, 0);
    assert_eq!(hdr.free_end, 0);
}

#[test]
fn page_from_bytes_keeps_the_bytes() {
    let page = leaf_page(&[4, 2]);
    let copy = Page::from_bytes(&page.to_bytes());
    assert_eq!(copy.to_bytes(), page.to_bytes());
    assert_eq!(keys(&copy), vec![2, 4]);
}
