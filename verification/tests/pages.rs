use btree_cursor::bytes::{get_u16, get_u32, set_u16, set_u32};
use btree_cursor::cell::{BTreeCell, Fetch};
use btree_cursor::cursor::BTreeCursor;
use btree_cursor::errors::StorageError;
use btree_cursor::page::{PageContent, PageType};
use btree_cursor::pager::{DatabaseHeader, Pager};
use btree_cursor::record::{OwnedRecord, OwnedValue};
use btree_cursor::space::find_free_cell;
use btree_cursor::varint::write_varint_to_vec;

fn header(page_size: u16, unused_space: u8) -> DatabaseHeader {
    DatabaseHeader { page_size, unused_space, database_size: 1 }
}

fn cursor(page_size: u16) -> BTreeCursor {
    BTreeCursor::new(Pager::new(), 2, header(page_size, 0))
}

/// An empty page of the type.
fn page(cursor: &mut BTreeCursor, page_type: PageType) -> PageContent {
    let id = cursor.allocate_page(page_type);
    cursor.pager.take(id)
}

/// A leaf cell for a row, with a payload of `len` bytes `fill`.
fn leaf_cell(rowid: u64, len: usize, fill: u8) -> Vec<u8> {
    let mut cell = Vec::new();
    write_varint_to_vec(len as u64, &mut cell);
    write_varint_to_vec(rowid, &mut cell);
    cell.extend(vec![fill; len]);
    cell
}

/// The bytes of cell `i`.
fn bytes_of(p: &PageContent, i: usize, usable: usize) -> Vec<u8> {
    let (start, len) = p.cell_get_raw_region(i, usable);
    p.buf[start..start + len].to_vec()
}

#[test]
fn numbers_are_big_endian() {
    let mut buf = vec![0u8; 8];
    set_u16(&mut buf, 1, 0x1234);
    set_u32(&mut buf, 4, 0xdead_beef);
    assert_eq!(buf, vec![0, 0x12, 0x34, 0, 0xde, 0xad, 0xbe, 0xef]);
    assert_eq!(get_u16(&buf, 1), 0x1234);
    assert_eq!(get_u32(&buf, 4), 0xdead_beef);
}

#[test]
fn the_longest_local_payloads() {
    let c = cursor(4096);
    assert_eq!(c.usable_space(), 4096);
    assert_eq!(c.max_local(PageType::TableLeaf), 4061);
    assert_eq!(c.max_local(PageType::TableInterior), 1002);
    assert_eq!(c.max_local(PageType::IndexLeaf), 4061);
    assert_eq!(c.max_local(PageType::IndexInterior), 1002);
    assert_eq!(c.min_local(PageType::IndexLeaf), 489);
    let c = BTreeCursor::new(Pager::new(), 2, header(512, 32));
    assert_eq!(c.usable_space(), 480);
    assert_eq!(c.max_local(PageType::TableLeaf), 445);
}

#[test]
fn a_new_page_is_empty() {
    let mut c = cursor(512);
    for t in [
        PageType::TableLeaf,
        PageType::TableInterior,
        PageType::IndexLeaf,
        PageType::IndexInterior,
    ] {
        let p = page(&mut c, t);
        assert_eq!(p.page_type(), Ok(t));
        assert_eq!(p.is_leaf(), t.is_leaf());
        assert_eq!(p.cell_count(), 0);
        assert_eq!(p.first_freeblock(), 0);
        assert_eq!(p.cell_content_area(), 512);
        assert_eq!(p.num_frag_free_bytes(), 0);
        assert_eq!(p.rightmost_pointer(), if t.is_leaf() { None } else { Some(0) });
        assert_eq!(c.compute_free_space(&p), 500);
        let start = if t.is_leaf() { 8 } else { 12 };
        assert_eq!(p.cell_get_raw_pointer_region(), (start, 0));
    }
}

#[test]
fn a_page_of_no_known_type_is_corrupt() {
    let p = PageContent { offset: 0, buf: vec![0; 512], overflow_cells: vec![] };
    assert_eq!(p.page_type(), Err(StorageError::CorruptPage));
}

#[test]
fn cells_keep_their_places() {
    let mut c = cursor(512);
    let mut p = page(&mut c, PageType::TableLeaf);
    let (a, b, d) = (leaf_cell(1, 10, 1), leaf_cell(5, 20, 5), leaf_cell(9, 30, 9));
    c.insert_into_cell(&mut p, &a, 0);
    c.insert_into_cell(&mut p, &d, 1);
    c.insert_into_cell(&mut p, &b, 1);
    assert_eq!(p.cell_count(), 3);
    assert_eq!(p.cell_content_area(), 512 - 12 - 22 - 32);
    assert_eq!(c.compute_free_space(&p), 500 - 66 - 6);
    assert_eq!(bytes_of(&p, 0, 512), a);
    assert_eq!(bytes_of(&p, 1, 512), b);
    assert_eq!(bytes_of(&p, 2, 512), d);
    assert!(p.overflow_cells.is_empty());
}

#[test]
fn a_cell_without_room_is_put_beside_the_page() {
    let mut c = cursor(512);
    let mut p = page(&mut c, PageType::TableLeaf);
    c.insert_into_cell(&mut p, &leaf_cell(1, 300, 1), 0);
    let before = p.buf.clone();
    let big = leaf_cell(2, 300, 2);
    c.insert_into_cell(&mut p, &big, 1);
    assert_eq!(p.buf, before);
    assert_eq!(p.overflow_cells.len(), 1);
    assert_eq!(p.overflow_cells[0].index, 1);
    assert_eq!(p.overflow_cells[0].payload, big);
}

#[test]
fn a_cell_may_fill_the_page() {
    let mut c = cursor(512);
    let mut p = page(&mut c, PageType::TableLeaf);
    c.insert_into_cell(&mut p, &leaf_cell(1, 477, 1), 0);
    assert_eq!(p.cell_count(), 1);
    assert_eq!(c.compute_free_space(&p), 500 - 480 - 2);
    c.insert_into_cell(&mut p, &leaf_cell(2, 14, 2), 1);
    assert_eq!(p.cell_count(), 2);
    assert_eq!(c.compute_free_space(&p), 0);
}

#[test]
fn freed_bytes_become_a_free_block() {
    let mut c = cursor(512);
    let mut p = page(&mut c, PageType::TableLeaf);
    for i in 0..3u64 {
        c.insert_into_cell(&mut p, &leaf_cell(i, 30, i as u8), i as usize);
    }
    let free = c.compute_free_space(&p);
    let (start, len) = p.cell_get_raw_region(1, 512);
    c.free_cell_range(&mut p, start as u16, len as u16);
    assert_eq!(p.first_freeblock() as usize, start);
    assert_eq!(get_u16(&p.buf, start), 0);
    assert_eq!(get_u16(&p.buf, start + 2) as usize, len);
    assert_eq!(c.compute_free_space(&p), free + len as u16);
    assert_eq!(find_free_cell(&p, &c.database_header, len), start);
    assert_eq!(find_free_cell(&p, &c.database_header, 4), start);
}

#[test]
fn bytes_freed_in_front_head_the_list() {
    let mut c = cursor(512);
    let mut p = page(&mut c, PageType::TableLeaf);
    for i in 0..4u64 {
        c.insert_into_cell(&mut p, &leaf_cell(i, 30, i as u8), i as usize);
    }
    let (far, len) = p.cell_get_raw_region(1, 512);
    let (near, _) = p.cell_get_raw_region(3, 512);
    c.free_cell_range(&mut p, far as u16, len as u16);
    c.free_cell_range(&mut p, near as u16, len as u16);
    assert_eq!(p.first_freeblock() as usize, near);
    assert_eq!(get_u16(&p.buf, near) as usize, far);
    assert_eq!(get_u16(&p.buf, far), 0);
}

/// A leaf with free blocks at the given places, 20 bytes each.
fn page_with_blocks(c: &mut BTreeCursor, starts: &[u16]) -> PageContent {
    let mut p = page(c, PageType::TableLeaf);
    p.write_u16(5, 100);
    let mut link: usize = 1;
    for start in starts {
        p.write_u16(link, *start);
        link = *start as usize;
        p.write_u16(link + 2, 20);
    }
    p.write_u16(link, 0);
    p
}

/// The free blocks of a page, in the order of the list.
fn blocks_of(p: &PageContent) -> Vec<(u16, u16)> {
    let mut blocks = Vec::new();
    let mut pc = p.first_freeblock();
    while pc != 0 {
        blocks.push((pc, p.read_u16(pc as usize + 2)));
        pc = p.read_u16(pc as usize);
    }
    blocks
}

#[test]
fn bytes_freed_between_two_blocks_are_listed_between_them() {
    let mut c = cursor(512);
    let mut p = page_with_blocks(&mut c, &[100, 300]);
    let before = p.buf.clone();
    c.free_cell_range(&mut p, 200, 20);
    assert_eq!(p.first_freeblock(), 100);
    assert_eq!(p.read_u16(100), 200);
    assert_eq!(p.read_u16(200), 300);
    assert_eq!(p.read_u16(202), 20);
    assert_eq!(p.read_u16(300), 0);
    assert_eq!(p.read_u16(302), 20);
    assert_eq!(blocks_of(&p), vec![(100, 20), (200, 20), (300, 20)]);
    for k in 0..512 {
        if k != 100 && k != 101 && !(200..204).contains(&k) {
            assert_eq!(p.buf[k], before[k]);
        }
    }
}

#[test]
fn bytes_freed_behind_all_blocks_end_the_list() {
    let mut c = cursor(512);
    let mut p = page_with_blocks(&mut c, &[100]);
    c.free_cell_range(&mut p, 200, 20);
    assert_eq!(p.buf[0], 13);
    assert_eq!(p.first_freeblock(), 100);
    assert_eq!(p.read_u16(100), 200);
    assert_eq!(p.read_u16(200), 0);
    assert_eq!(p.read_u16(202), 20);
    c.free_cell_range(&mut p, 490, 22);
    assert_eq!(blocks_of(&p), vec![(100, 20), (200, 20), (490, 22)]);
    assert_eq!(p.page_type(), Ok(PageType::TableLeaf));
}

#[test]
fn blocks_are_listed_in_order_however_they_are_freed() {
    let mut c = cursor(512);
    let mut p = page(&mut c, PageType::TableLeaf);
    p.write_u16(5, 100);
    for start in [300, 140, 460, 220, 380, 101] {
        c.free_cell_range(&mut p, start, 30);
    }
    let starts: Vec<u16> = blocks_of(&p).iter().map(|b| b.0).collect();
    assert_eq!(starts, vec![101, 140, 220, 300, 380, 460]);
    assert_eq!(find_free_cell(&p, &c.database_header, 30), 101);
    p.write_u16(103, 10);
    assert_eq!(find_free_cell(&p, &c.database_header, 30), 140);
}

#[test]
fn cells_are_moved_together_on_a_small_page() {
    let c = BTreeCursor::new(Pager::new(), 2, header(64, 4));
    let mut p = PageContent { offset: 0, buf: vec![0; 64], overflow_cells: Vec::new() };
    p.buf[0] = 13;
    p.buf[4] = 2;
    p.buf[6] = 40;
    p.buf[9] = 40;
    p.buf[11] = 50;
    p.buf[40..44].copy_from_slice(&[2, 1, 0xaa, 0xbb]);
    p.buf[50..55].copy_from_slice(&[3, 2, 0xcc, 0xdd, 0xee]);
    p.buf[60..64].copy_from_slice(&[7, 7, 7, 7]);
    assert_eq!(c.compute_free_space(&p), 40 - 16);
    c.defragment_page(&mut p);
    assert_eq!(p.buf[8..12], [0, 56, 0, 51]);
    assert_eq!(p.buf[56..60], [2, 1, 0xaa, 0xbb]);
    assert_eq!(p.buf[51..56], [3, 2, 0xcc, 0xdd, 0xee]);
    assert_eq!(p.buf[1..7], [0, 0, 0, 2, 0, 51]);
    assert!(p.buf[40..51].iter().all(|b| *b == 0));
    assert_eq!(p.buf[60..64], [7, 7, 7, 7]);
    let again = p.buf.clone();
    c.defragment_page(&mut p);
    assert_eq!(p.buf, again);
    c.insert_into_cell(&mut p, &[1, 3, 0x11], 2);
    assert_eq!(p.cell_count(), 3);
    assert_eq!(p.cell_content_area(), 48);
    assert_eq!(p.buf[48..51], [1, 3, 0x11]);
    c.free_cell_range(&mut p, 51, 5);
    assert_eq!(p.first_freeblock(), 51);
    assert_eq!(find_free_cell(&p, &c.database_header, 5), 51);
    c.empty_page(&mut p);
    assert_eq!(p.cell_count(), 0);
    assert_eq!(p.cell_content_area(), 60);
}

#[test]
fn bytes_freed_at_the_content_area_move_its_start() {
    let mut c = cursor(512);
    let mut p = page(&mut c, PageType::TableLeaf);
    for i in 0..3u64 {
        c.insert_into_cell(&mut p, &leaf_cell(i, 30, i as u8), i as usize);
    }
    p.write_u16(1, 200);
    p.write_u16(5, 300);
    c.free_cell_range(&mut p, 300, 40);
    assert_eq!(p.first_freeblock(), 200);
    assert_eq!(p.cell_content_area(), 340);
}

#[test]
fn a_dropped_cell_is_freed() {
    let mut c = cursor(512);
    let mut p = page(&mut c, PageType::TableLeaf);
    for i in 0..3u64 {
        c.insert_into_cell(&mut p, &leaf_cell(i, 30, i as u8), i as usize);
    }
    let (start, len) = p.cell_get_raw_region(2, 512);
    c.drop_cell(&mut p, 2);
    assert_eq!(p.cell_count(), 2);
    assert_eq!(p.first_freeblock() as usize, start);
    assert_eq!(get_u16(&p.buf, start + 2) as usize, len);
}

#[test]
fn a_search_for_more_than_any_block_finds_none() {
    let mut c = cursor(512);
    let mut p = page(&mut c, PageType::TableLeaf);
    p.write_u16(1, 400);
    p.write_u16(400, 500);
    p.write_u16(402, 20);
    assert_eq!(find_free_cell(&p, &c.database_header, 20), 400);
    assert_eq!(find_free_cell(&p, &c.database_header, 21), 0);
}

#[test]
fn moving_cells_together_keeps_them() {
    let mut c = cursor(512);
    let mut p = page(&mut c, PageType::TableLeaf);
    let cells: Vec<Vec<u8>> = (0..4u64).map(|i| leaf_cell(i, 20 + i as usize, i as u8)).collect();
    for i in 0..4 {
        c.insert_into_cell(&mut p, &cells[i], i);
    }
    // cell 1 is forgotten, and its bytes are free
    let (start, len) = p.cell_get_raw_region(1, 512);
    c.free_cell_range(&mut p, start as u16, len as u16);
    for i in 1..3 {
        let next = p.read_u16(8 + 2 * (i + 1));
        p.write_u16(8 + 2 * i, next);
    }
    p.write_u16(3, 3);
    c.defragment_page(&mut p);
    assert_eq!(p.cell_count(), 3);
    assert_eq!(p.first_freeblock(), 0);
    assert_eq!(bytes_of(&p, 0, 512), cells[0]);
    assert_eq!(bytes_of(&p, 1, 512), cells[2]);
    assert_eq!(bytes_of(&p, 2, 512), cells[3]);
    let total = cells[0].len() + cells[2].len() + cells[3].len();
    assert_eq!(p.cell_content_area() as usize, 512 - total);
}

#[test]
fn room_is_made_below_the_content_area() {
    let mut c = cursor(512);
    let mut p = page(&mut c, PageType::TableLeaf);
    assert_eq!(c.allocate_cell_space(&mut p, 100), 412);
    assert_eq!(p.cell_content_area(), 412);
}

#[test]
fn room_is_made_in_a_free_block() {
    let mut c = cursor(512);
    let mut p = page(&mut c, PageType::TableLeaf);
    c.insert_into_cell(&mut p, &leaf_cell(1, 60, 1), 0);
    c.insert_into_cell(&mut p, &leaf_cell(2, 60, 2), 1);
    let (start, len) = p.cell_get_raw_region(0, 512);
    c.free_cell_range(&mut p, start as u16, len as u16);
    assert_eq!(c.allocate_cell_space(&mut p, 50) as usize, start);
}

#[test]
fn a_page_is_filled_with_cells_in_order() {
    let mut c = cursor(512);
    let mut p = page(&mut c, PageType::TableLeaf);
    c.insert_into_cell(&mut p, &leaf_cell(77, 60, 1), 0);
    c.empty_page(&mut p);
    assert_eq!(p.cell_count(), 0);
    assert_eq!(p.cell_content_area(), 512);
    let cells: Vec<Vec<u8>> = (0..5u64).map(|i| leaf_cell(i, 20, i as u8)).collect();
    c.fill_page(&mut p, &cells, 1, 4);
    assert_eq!(c.gather_cells(&p), cells[1..4].to_vec());
}

#[test]
fn the_place_of_a_key_on_a_leaf() {
    let mut c = cursor(512);
    let mut p = page(&mut c, PageType::TableLeaf);
    for (i, rowid) in [10u64, 20, 30].iter().enumerate() {
        c.insert_into_cell(&mut p, &leaf_cell(*rowid, 4, 0), i);
    }
    assert_eq!(c.find_cell(&p, 5), 0);
    assert_eq!(c.find_cell(&p, 10), 0);
    assert_eq!(c.find_cell(&p, 11), 1);
    assert_eq!(c.find_cell(&p, 30), 2);
    assert_eq!(c.find_cell(&p, 31), 3);
}

#[test]
fn a_parent_names_its_children() {
    let mut c = cursor(512);
    let mut p = page(&mut c, PageType::TableInterior);
    for (i, (child, key)) in [(7u8, 10u64), (8, 20)].iter().enumerate() {
        let mut cell = vec![0, 0, 0, *child];
        write_varint_to_vec(*key, &mut cell);
        c.insert_into_cell(&mut p, &cell, i);
    }
    p.write_u32(8, 9);
    assert_eq!(p.rightmost_pointer(), Some(9));
    assert_eq!(c.find_child_slot(&p, 7), p.cell_get_raw_region(0, 512).0);
    assert_eq!(c.find_child_slot(&p, 8), p.cell_get_raw_region(1, 512).0);
    assert_eq!(c.find_child_slot(&p, 9), 8);
}

#[test]
fn the_cells_of_each_page_type_are_read() {
    let mut c = cursor(512);
    let mut p = page(&mut c, PageType::TableLeaf);
    c.insert_into_cell(&mut p, &leaf_cell(300, 3, 4), 0);
    match p.cell_get(0, &c.pager, 512) {
        Fetch::Ready(BTreeCell::TableLeafCell { rowid, payload }) => {
            assert_eq!(rowid, 300);
            assert_eq!(payload, vec![4, 4, 4]);
        }
        _ => panic!("not a leaf cell"),
    }
    let mut p = page(&mut c, PageType::TableInterior);
    c.insert_into_cell(&mut p, &[0, 0, 1, 2, 0x81, 0], 0);
    match p.cell_get(0, &c.pager, 512) {
        Fetch::Ready(BTreeCell::TableInteriorCell { left_child_page, rowid }) => {
            assert_eq!(left_child_page, 258);
            assert_eq!(rowid, 128);
        }
        _ => panic!("not an interior cell"),
    }
    let mut p = page(&mut c, PageType::IndexLeaf);
    c.insert_into_cell(&mut p, &[2, 5, 6], 0);
    match p.cell_get(0, &c.pager, 512) {
        Fetch::Ready(BTreeCell::IndexLeafCell { payload }) => assert_eq!(payload, vec![5, 6]),
        _ => panic!("not an index cell"),
    }
    let mut p = page(&mut c, PageType::IndexInterior);
    c.insert_into_cell(&mut p, &[0, 0, 0, 9, 2, 5, 6], 0);
    match p.cell_get(0, &c.pager, 512) {
        Fetch::Ready(BTreeCell::IndexInteriorCell { left_child_page, payload }) => {
            assert_eq!(left_child_page, 9);
            assert_eq!(payload, vec![5, 6]);
        }
        _ => panic!("not an interior index cell"),
    }
}

#[test]
fn a_long_payload_goes_to_overflow_pages() {
    let mut c = cursor(512);
    let record = OwnedRecord { values: vec![OwnedValue::Blob((0..1000).map(|i| i as u8).collect())] };
    let mut payload = Vec::new();
    record.serialize(&mut payload);
    assert_eq!(payload.len(), 1003);
    let mut cell = Vec::new();
    c.fill_cell_payload(PageType::TableLeaf, Some(5), &mut cell, &record);
    // two bytes of length, one of row id, 39 of payload, four of page number
    assert_eq!(cell.len(), 2 + 1 + 39 + 4);
    assert_eq!(&cell[3..42], &payload[..39]);
    assert_eq!(get_u32(&cell, 42), 2);
    assert_eq!(c.database_header.database_size, 3);
    let first = c.pager.contents(2).unwrap();
    assert_eq!(get_u32(&first.buf, 0), 3);
    assert_eq!(&first.buf[4..], &payload[39..39 + 508]);
    let second = c.pager.contents(3).unwrap();
    assert_eq!(get_u32(&second.buf, 0), 0);
    assert_eq!(&second.buf[4..4 + 456], &payload[39 + 508..]);
    let mut p = page(&mut c, PageType::TableLeaf);
    c.insert_into_cell(&mut p, &cell, 0);
    match p.cell_get(0, &c.pager, 512) {
        Fetch::Ready(BTreeCell::TableLeafCell { rowid, payload: back }) => {
            assert_eq!(rowid, 5);
            assert_eq!(back, payload);
        }
        _ => panic!("not read back"),
    }
}

#[test]
fn a_payload_that_fits_is_followed_by_zeros() {
    let mut c = cursor(512);
    let record = OwnedRecord { values: vec![OwnedValue::Null] };
    let mut cell = Vec::new();
    c.fill_cell_payload(PageType::TableLeaf, Some(5), &mut cell, &record);
    assert_eq!(cell, vec![2, 5, 2, 0, 0, 0, 0, 0]);
    assert_eq!(c.database_header.database_size, 1);
}
