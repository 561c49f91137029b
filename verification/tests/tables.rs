use btree_cursor::bytes::get_u32;
use btree_cursor::cursor::{BTreeCursor, WriteState};
use btree_cursor::order::{CursorResult, SeekKey, SeekOp};
use btree_cursor::page::PageType;
use btree_cursor::pager::{DatabaseHeader, Pager};
use btree_cursor::record::{OwnedRecord, OwnedValue};

const ROOT: usize = 2;

/// A cursor on an empty table.
fn empty_table(page_size: u16) -> BTreeCursor {
    let header = DatabaseHeader { page_size, unused_space: 0, database_size: 1 };
    let mut cursor = BTreeCursor::new(Pager::new(), ROOT, header);
    assert_eq!(cursor.allocate_page(PageType::TableLeaf), ROOT);
    cursor
}

fn blob(n: usize, fill: u8) -> OwnedRecord {
    OwnedRecord { values: vec![OwnedValue::Blob(vec![fill; n])] }
}

fn insert(cursor: &mut BTreeCursor, rowid: i64, record: &OwnedRecord) {
    let done = cursor.insert(&OwnedValue::Integer(rowid), record, false);
    assert!(matches!(done, Ok(CursorResult::Done(()))));
}

fn first_blob(record: &Option<OwnedRecord>) -> Vec<u8> {
    match record {
        Some(r) => match &r.values[0] {
            OwnedValue::Blob(b) => b.clone(),
            _ => panic!("not a blob"),
        },
        None => panic!("no record"),
    }
}

/// The row ids that a scan meets.
fn scan(cursor: &mut BTreeCursor) -> Vec<u64> {
    let mut found = Vec::new();
    assert!(matches!(cursor.rewind(), Ok(CursorResult::Done(()))));
    while let Ok(Some(rowid)) = cursor.rowid() {
        found.push(rowid);
        assert!(matches!(cursor.next(), Ok(CursorResult::Done(()))));
    }
    assert!(cursor.is_empty());
    found
}

#[test]
fn rows_come_back_in_order() {
    let mut cursor = empty_table(512);
    for rowid in [5, 1, 9, 3, 7] {
        insert(&mut cursor, rowid, &blob(4, rowid as u8));
    }
    assert_eq!(scan(&mut cursor), vec![1, 3, 5, 7, 9]);
}

#[test]
fn a_full_leaf_is_split() {
    let mut cursor = empty_table(512);
    for rowid in 1..=4 {
        insert(&mut cursor, rowid, &blob(100, rowid as u8));
    }
    assert_eq!(cursor.database_header.database_size, 2);
    insert(&mut cursor, 5, &blob(100, 5));
    assert_eq!(cursor.database_header.database_size, 4);
    assert_eq!(cursor.root_page, ROOT);
    assert_eq!(cursor.write_info.state, WriteState::Start);
    assert_eq!(scan(&mut cursor), vec![1, 2, 3, 4, 5]);
    for rowid in 1..=5u64 {
        let hit = cursor.seek_to(SeekKey::TableRowId(rowid), SeekOp::EQ);
        assert!(matches!(hit, Ok(CursorResult::Done(true))));
        assert_eq!(first_blob(cursor.record().unwrap()), vec![rowid as u8; 100]);
    }
}

#[test]
fn leaves_are_split_again_below_the_root() {
    let mut cursor = empty_table(512);
    for rowid in 1..=30 {
        insert(&mut cursor, rowid, &blob(100, rowid as u8));
    }
    assert_eq!(cursor.root_page, ROOT);
    assert_eq!(scan(&mut cursor), (1..=30).collect::<Vec<u64>>());
    for rowid in 1..=30u64 {
        let hit = cursor.seek_to(SeekKey::TableRowId(rowid), SeekOp::EQ);
        assert!(matches!(hit, Ok(CursorResult::Done(true))));
        assert_eq!(cursor.rowid(), Ok(Some(rowid)));
        assert_eq!(first_blob(cursor.record().unwrap()), vec![rowid as u8; 100]);
    }
}

/// Takes the cells beside the pages away, as pages that are read again have none.
fn read_again(cursor: &mut BTreeCursor) {
    for id in ROOT..=cursor.database_header.database_size as usize {
        let mut page = cursor.pager.take(id);
        page.overflow_cells.clear();
        cursor.pager.put(id, page);
    }
}

#[test]
fn a_split_leaves_its_cell_beside_the_left_leaf() {
    let mut cursor = empty_table(512);
    for rowid in [10, 20, 30, 50, 40] {
        insert(&mut cursor, rowid, &blob(100, rowid as u8));
    }
    assert_eq!(cursor.database_header.database_size, 4);
    assert_eq!(scan(&mut cursor), vec![10, 20, 30, 40, 50]);
    // the left leaf is page 3, the right one page 4
    let left = cursor.pager.contents(3).unwrap();
    assert_eq!(left.cell_count(), 2);
    assert_eq!(left.overflow_cells.len(), 1);
    assert_eq!(left.overflow_cells[0].index, 3);
    let right = cursor.pager.contents(4).unwrap();
    assert_eq!(right.cell_count(), 3);
    let (start, len) = right.cell_get_raw_region(1, 512);
    assert!(left.overflow_cells[0].payload.starts_with(&right.buf[start..start + len]));
    assert!(right.overflow_cells.is_empty());
    assert!(cursor.pager.contents(ROOT).unwrap().overflow_cells.is_empty());
}

#[test]
fn a_cell_beside_a_leaf_is_shared_out_again() {
    let mut cursor = empty_table(512);
    for rowid in [10, 20, 30, 50, 40] {
        insert(&mut cursor, rowid, &blob(100, rowid as u8));
    }
    // the left leaf has room for the row, and is split all the same
    insert(&mut cursor, 5, &blob(100, 5));
    assert_eq!(cursor.database_header.database_size, 5);
    assert_eq!(scan(&mut cursor), vec![5, 10, 20, 40, 30, 40, 50]);
}

#[test]
fn rows_come_into_the_right_half_of_a_split() {
    let mut cursor = empty_table(512);
    for rowid in [10, 20, 30, 50, 40] {
        insert(&mut cursor, rowid, &blob(100, rowid as u8));
    }
    insert(&mut cursor, 35, &blob(100, 35));
    assert_eq!(cursor.database_header.database_size, 4);
    assert_eq!(scan(&mut cursor), vec![10, 20, 30, 35, 40, 50]);
    insert(&mut cursor, 60, &blob(100, 60));
    assert_eq!(cursor.database_header.database_size, 5);
    assert_eq!(scan(&mut cursor), vec![10, 20, 30, 35, 40, 50, 60]);
}

#[test]
fn rows_come_into_the_left_half_of_a_split_that_is_read_again() {
    let mut cursor = empty_table(512);
    for rowid in [10, 20, 30, 40, 50] {
        insert(&mut cursor, rowid, &blob(100, rowid as u8));
    }
    read_again(&mut cursor);
    assert_eq!(cursor.database_header.database_size, 4);
    // the left leaf has room for two rows more
    insert(&mut cursor, 5, &blob(100, 5));
    insert(&mut cursor, 15, &blob(100, 15));
    assert_eq!(cursor.database_header.database_size, 4);
    assert_eq!(scan(&mut cursor), vec![5, 10, 15, 20, 30, 40, 50]);
    insert(&mut cursor, 17, &blob(100, 17));
    assert_eq!(cursor.database_header.database_size, 5);
    assert_eq!(scan(&mut cursor), vec![5, 10, 15, 17, 20, 30, 40, 50]);
}

/// Looks for every one of the rows.
fn check(cursor: &mut BTreeCursor, rowids: &[i64]) {
    let mut sorted: Vec<u64> = rowids.iter().map(|r| *r as u64).collect();
    sorted.sort();
    assert_eq!(scan(cursor), sorted);
    for rowid in &sorted {
        let hit = cursor.seek_to(SeekKey::TableRowId(*rowid), SeekOp::EQ);
        assert!(matches!(hit, Ok(CursorResult::Done(true))));
        assert_eq!(cursor.rowid(), Ok(Some(*rowid)));
        assert_eq!(first_blob(cursor.record().unwrap()), vec![*rowid as u8; 90]);
    }
}

/// How many pages lie on the way from the root to a leaf.
fn height(cursor: &BTreeCursor) -> usize {
    let mut id = cursor.root_page;
    let mut n = 1;
    while let Some(next) = cursor.pager.contents(id).unwrap().rightmost_pointer() {
        id = next as usize;
        n += 1;
    }
    n
}

#[test]
fn interior_pages_are_split_by_ascending_rows() {
    let rowids: Vec<i64> = (1..=900).collect();
    let mut cursor = empty_table(512);
    for rowid in &rowids {
        insert(&mut cursor, *rowid, &blob(90, *rowid as u8));
    }
    check(&mut cursor, &rowids);
    assert_eq!(cursor.root_page, ROOT);
    assert!(height(&cursor) >= 3);
}

#[test]
fn interior_pages_are_split_by_descending_rows() {
    let rowids: Vec<i64> = (1..=900).rev().collect();
    let mut cursor = empty_table(512);
    for rowid in &rowids {
        insert(&mut cursor, *rowid, &blob(90, *rowid as u8));
        read_again(&mut cursor);
    }
    check(&mut cursor, &rowids);
    assert!(height(&cursor) >= 3);
}

#[test]
fn interior_pages_are_split_by_rows_in_any_order() {
    let rowids: Vec<i64> = (0..1009).map(|i| (i * 367) % 1009 + 1).collect();
    let mut cursor = empty_table(512);
    for rowid in &rowids {
        insert(&mut cursor, *rowid, &blob(90, *rowid as u8));
        read_again(&mut cursor);
    }
    check(&mut cursor, &rowids);
    assert!(height(&cursor) >= 3);
}

#[test]
fn an_interior_page_shares_its_entries() {
    let mut cursor = empty_table(512);
    let mut rowid = 0;
    while height(&cursor) < 3 {
        rowid += 1;
        insert(&mut cursor, rowid, &blob(90, rowid as u8));
    }
    let root = cursor.pager.contents(ROOT).unwrap();
    assert_eq!(root.cell_count(), 1);
    let right = root.rightmost_pointer().unwrap() as usize;
    let (start, len) = root.cell_get_raw_region(0, 512);
    let divider = root.buf[start..start + len].to_vec();
    let left = get_u32(&divider, 0) as usize;
    let l = cursor.pager.contents(left).unwrap();
    let r = cursor.pager.contents(right).unwrap();
    assert_eq!(l.page_type(), Ok(PageType::TableInterior));
    assert_eq!(r.page_type(), Ok(PageType::TableInterior));
    // one entry of the shared ones went up to the root
    assert_eq!(r.cell_count() - l.cell_count(), 1 + (l.cell_count() + r.cell_count() + 1) % 2);
    // the greatest row id below the left page is the one in the root
    let last = cursor.pager.contents(l.rightmost_pointer().unwrap() as usize).unwrap();
    let row = last.cell_info(last.cell_count() - 1, 512).unwrap().rowid;
    assert_eq!(root.cell_info(0, 512).unwrap().rowid, row);
    // the newest row is on the right-most leaf below the right page
    let newest = cursor.pager.contents(r.rightmost_pointer().unwrap() as usize).unwrap();
    let row = newest.cell_info(newest.cell_count() - 1, 512).unwrap().rowid;
    assert_eq!(row, rowid as u64);
    // the divider for which there was no room is still beside the left page
    assert_eq!(l.overflow_cells.len(), 1);
    assert!(r.overflow_cells.is_empty());
}

#[test]
fn the_next_row_is_found_beyond_a_leaf() {
    let mut cursor = empty_table(512);
    for i in 1..=40 {
        insert(&mut cursor, 10 * i, &blob(90, i as u8));
    }
    for k in 0..400u64 {
        let next = cursor.seek_to(SeekKey::TableRowId(k), SeekOp::GT);
        assert!(matches!(next, Ok(CursorResult::Done(true))));
        assert_eq!(cursor.rowid(), Ok(Some(k / 10 * 10 + 10)));
        let here = cursor.seek_to(SeekKey::TableRowId(k), SeekOp::GE);
        assert!(matches!(here, Ok(CursorResult::Done(true))));
        assert_eq!(cursor.rowid(), Ok(Some(((k + 9) / 10 * 10).max(10))));
    }
    let none = cursor.seek_to(SeekKey::TableRowId(400), SeekOp::GT);
    assert!(matches!(none, Ok(CursorResult::Done(false))));
}

#[test]
fn a_split_shares_the_cells() {
    let mut cursor = empty_table(512);
    for rowid in 1..=5 {
        insert(&mut cursor, rowid, &blob(100, rowid as u8));
    }
    let root = cursor.pager.contents(ROOT).unwrap();
    assert_eq!(root.page_type(), Ok(PageType::TableInterior));
    assert_eq!(root.cell_count(), 1);
    assert_eq!(root.rightmost_pointer(), Some(4));
    let (start, len) = root.cell_get_raw_region(0, 512);
    // the left page and the greatest row id on it
    assert_eq!(&root.buf[start..start + len], &[0, 0, 0, 3, 2]);
    assert_eq!(cursor.pager.contents(3).unwrap().cell_count(), 2);
    assert_eq!(cursor.pager.contents(4).unwrap().cell_count(), 3);
}

#[test]
fn a_row_goes_between_others() {
    let mut cursor = empty_table(512);
    for rowid in [10, 20, 30, 40] {
        insert(&mut cursor, rowid, &blob(100, rowid as u8));
    }
    insert(&mut cursor, 15, &blob(100, 15));
    assert_eq!(scan(&mut cursor), vec![10, 15, 20, 30, 40]);
    insert(&mut cursor, 35, &blob(100, 35));
    assert_eq!(scan(&mut cursor), vec![10, 15, 20, 30, 35, 40]);
}

#[test]
fn a_long_row_comes_back() {
    let mut cursor = empty_table(512);
    insert(&mut cursor, 1, &blob(10, 1));
    insert(&mut cursor, 2, &blob(5000, 2));
    insert(&mut cursor, 3, &blob(10, 3));
    assert!(matches!(
        cursor.seek_to(SeekKey::TableRowId(2), SeekOp::EQ),
        Ok(CursorResult::Done(true))
    ));
    assert_eq!(first_blob(cursor.record().unwrap()), vec![2; 5000]);
    assert_eq!(scan(&mut cursor), vec![1, 2, 3]);
}

#[test]
fn searches_find_the_first_row_that_they_ask_for() {
    let mut cursor = empty_table(512);
    for rowid in [10, 20, 30] {
        insert(&mut cursor, rowid, &blob(4, rowid as u8));
    }
    for (key, op, want) in [
        (20, SeekOp::EQ, Some(20)),
        (20, SeekOp::GE, Some(20)),
        (20, SeekOp::GT, Some(30)),
        (15, SeekOp::EQ, None),
        (15, SeekOp::GE, Some(20)),
        (15, SeekOp::GT, Some(20)),
        (30, SeekOp::GT, None),
        (31, SeekOp::GE, None),
        (0, SeekOp::GE, Some(10)),
    ] {
        let hit = cursor.seek_to(SeekKey::TableRowId(key), op);
        assert!(matches!(hit, Ok(CursorResult::Done(found)) if found == want.is_some()));
        assert_eq!(cursor.rowid(), Ok(want));
        assert_eq!(cursor.is_empty(), want.is_none());
    }
}

#[test]
fn rows_exist_or_not() {
    let mut cursor = empty_table(512);
    for rowid in 1..=9 {
        insert(&mut cursor, 2 * rowid, &blob(100, rowid as u8));
    }
    for rowid in 1..=19 {
        let there = cursor.row_exists(&OwnedValue::Integer(rowid));
        let want = rowid % 2 == 0 && rowid <= 18;
        assert!(matches!(there, Ok(CursorResult::Done(b)) if b == want), "{}", rowid);
    }
}

#[test]
fn the_last_row_is_found() {
    let mut cursor = empty_table(512);
    assert!(matches!(cursor.seek_to_last(), Ok(CursorResult::Done(()))));
    assert!(cursor.is_empty());
    for rowid in 1..=12 {
        insert(&mut cursor, rowid, &blob(100, rowid as u8));
        assert!(matches!(cursor.seek_to_last(), Ok(CursorResult::Done(()))));
        assert_eq!(cursor.rowid(), Ok(Some(rowid as u64)));
    }
}

#[test]
fn an_empty_table_has_no_rows() {
    let mut cursor = empty_table(512);
    assert_eq!(scan(&mut cursor), Vec::<u64>::new());
    assert!(matches!(cursor.is_empty_table(), Ok(CursorResult::Done(true))));
    insert(&mut cursor, 1, &blob(1, 1));
    assert!(matches!(cursor.is_empty_table(), Ok(CursorResult::Done(false))));
}

#[test]
fn a_row_may_be_put_where_the_cursor_is() {
    let mut cursor = empty_table(512);
    insert(&mut cursor, 1, &blob(1, 1));
    assert!(matches!(
        cursor.move_to(SeekKey::TableRowId(2), SeekOp::EQ),
        Ok(CursorResult::Done(()))
    ));
    let done = cursor.insert(&OwnedValue::Integer(2), &blob(1, 2), true);
    assert!(matches!(done, Ok(CursorResult::Done(()))));
    assert_eq!(scan(&mut cursor), vec![1, 2]);
}

#[test]
fn a_negative_key_is_a_great_row_id() {
    let mut cursor = empty_table(512);
    insert(&mut cursor, -1, &blob(1, 1));
    insert(&mut cursor, 5, &blob(1, 2));
    assert_eq!(scan(&mut cursor), vec![5, u64::MAX]);
}

#[test]
fn the_null_flag_is_kept() {
    let mut cursor = empty_table(512);
    assert!(!cursor.get_null_flag());
    cursor.set_null_flag(true);
    assert!(cursor.get_null_flag());
    assert_eq!(cursor.wait_for_completion(), Ok(()));
}

#[test]
fn the_stack_of_pages() {
    let mut cursor = empty_table(512);
    cursor.move_to_root();
    assert_eq!(cursor.top_from_stack(), ROOT);
    assert!(!cursor.has_parent());
    cursor.pager.read_page(7);
    cursor.push_to_stack(7);
    assert!(cursor.has_parent());
    assert_eq!(cursor.top_from_stack(), 7);
    assert_eq!(cursor.parent(), ROOT);
    assert_eq!(cursor.current(), 1);
    assert_eq!(cursor.current_index(), 0);
    cursor.advance();
    cursor.advance();
    assert_eq!(cursor.current_index(), 2);
    cursor.set_index(9);
    assert_eq!(cursor.current_index(), 9);
    cursor.pop_from_stack();
    assert_eq!(cursor.top_from_stack(), ROOT);
    assert_eq!(cursor.current_index(), 0);
}

#[test]
fn a_row_may_go_into_a_free_block() {
    let mut cursor = empty_table(512);
    for rowid in 1..=4 {
        insert(&mut cursor, rowid, &blob(60, rowid as u8));
    }
    let mut page = cursor.pager.take(ROOT);
    let (start, _) = page.cell_get_raw_region(3, 512);
    cursor.drop_cell(&mut page, 3);
    assert_eq!(page.first_freeblock() as usize, start);
    cursor.pager.put(ROOT, page);
    insert(&mut cursor, 2000, &blob(40, 7));
    let page = cursor.pager.contents(ROOT).unwrap();
    assert_eq!(page.cell_get_raw_region(3, 512).0, start);
    assert_eq!(scan(&mut cursor), vec![1, 2, 3, 2000]);
}

#[test]
fn cells_are_moved_together_for_a_row() {
    let mut cursor = empty_table(512);
    for rowid in 1..=4 {
        insert(&mut cursor, rowid, &blob(100, rowid as u8));
    }
    // rows 1 and 3 are forgotten, and their bytes are free blocks
    let mut page = cursor.pager.take(ROOT);
    let (first, len) = page.cell_get_raw_region(2, 512);
    let (second, _) = page.cell_get_raw_region(0, 512);
    let (a, b) = (page.read_u16(10), page.read_u16(14));
    page.write_u16(8, a);
    page.write_u16(10, b);
    page.write_u16(3, 2);
    page.write_u16(1, first as u16);
    page.write_u16(first, second as u16);
    page.write_u16(first + 2, len as u16);
    page.write_u16(second, 0);
    page.write_u16(second + 2, len as u16);
    cursor.pager.put(ROOT, page);
    insert(&mut cursor, 3, &blob(130, 33));
    assert_eq!(cursor.database_header.database_size, 2);
    let page = cursor.pager.contents(ROOT).unwrap();
    assert_eq!(page.first_freeblock(), 0);
    assert_eq!(scan(&mut cursor), vec![2, 3, 4]);
    assert!(cursor.seek_to(SeekKey::TableRowId(3), SeekOp::EQ).is_ok());
    assert_eq!(first_blob(cursor.record().unwrap()), vec![33; 130]);
}
