use btree_cursor::cursor::BTreeCursor;
use btree_cursor::order::{CursorResult, SeekKey, SeekOp};
use btree_cursor::page::PageType;
use btree_cursor::pager::{DatabaseHeader, Pager};
use btree_cursor::record::{OwnedRecord, OwnedValue};
use btree_cursor::varint::write_varint_to_vec;

const ROOT: usize = 2;

fn entry(key: i64, rowid: i64) -> OwnedRecord {
    OwnedRecord { values: vec![OwnedValue::Integer(key), OwnedValue::Integer(rowid)] }
}

fn key(k: i64) -> OwnedRecord {
    OwnedRecord { values: vec![OwnedValue::Integer(k)] }
}

fn index_cell(child: Option<u32>, record: &OwnedRecord) -> Vec<u8> {
    let mut payload = Vec::new();
    record.serialize(&mut payload);
    let mut cell = Vec::new();
    if let Some(c) = child {
        cell.extend(c.to_be_bytes());
    }
    write_varint_to_vec(payload.len() as u64, &mut cell);
    cell.extend(payload);
    cell
}

/// Adds a leaf with entries for these keys, each with the key as its row id.
fn add_leaf(cursor: &mut BTreeCursor, keys: &[i64]) -> u32 {
    let id = cursor.allocate_page(PageType::IndexLeaf);
    let mut page = cursor.pager.take(id);
    for (i, k) in keys.iter().enumerate() {
        cursor.insert_into_cell(&mut page, &index_cell(None, &entry(*k, *k)), i);
    }
    cursor.pager.put(id, page);
    id as u32
}

/// Fills interior page `id` with cells and a right-most child.
fn fill_interior(cursor: &mut BTreeCursor, id: usize, cells: &[(u32, i64)], rightmost: u32) {
    let mut page = cursor.pager.take(id);
    for (i, (child, k)) in cells.iter().enumerate() {
        cursor.insert_into_cell(&mut page, &index_cell(Some(*child), &entry(*k, *k)), i);
    }
    page.write_u32(8, rightmost);
    cursor.pager.put(id, page);
}

fn new_cursor(root_type: PageType) -> BTreeCursor {
    let header = DatabaseHeader { page_size: 512, unused_space: 0, database_size: 1 };
    let mut cursor = BTreeCursor::new(Pager::new(), ROOT, header);
    assert_eq!(cursor.allocate_page(root_type), ROOT);
    cursor
}

/// An index of three levels with the keys 10, 20, .. 110.
fn index() -> BTreeCursor {
    let mut cursor = new_cursor(PageType::IndexInterior);
    let a = add_leaf(&mut cursor, &[10, 20]);
    let b = add_leaf(&mut cursor, &[40]);
    let c = add_leaf(&mut cursor, &[60, 70]);
    let d = add_leaf(&mut cursor, &[90, 100, 110]);
    let left = cursor.allocate_page(PageType::IndexInterior);
    let right = cursor.allocate_page(PageType::IndexInterior);
    fill_interior(&mut cursor, left, &[(a, 30)], b);
    fill_interior(&mut cursor, right, &[(c, 80)], d);
    fill_interior(&mut cursor, ROOT, &[(left as u32, 50)], right as u32);
    cursor
}

fn scan(cursor: &mut BTreeCursor) -> Vec<u64> {
    let mut found = Vec::new();
    assert!(matches!(cursor.rewind(), Ok(CursorResult::Done(()))));
    while let Ok(Some(rowid)) = cursor.rowid() {
        found.push(rowid);
        assert!(matches!(cursor.next(), Ok(CursorResult::Done(()))));
    }
    found
}

#[test]
fn a_scan_meets_every_entry() {
    let mut cursor = index();
    assert_eq!(scan(&mut cursor), (1..=11).map(|i| 10 * i).collect::<Vec<u64>>());
}

#[test]
fn a_second_scan_passes_over_the_first_child() {
    let mut cursor = index();
    assert_eq!(scan(&mut cursor), (1..=11).map(|i| 10 * i).collect::<Vec<u64>>());
    assert!(cursor.going_upwards);
    assert_eq!(scan(&mut cursor), (5..=11).map(|i| 10 * i).collect::<Vec<u64>>());
    cursor.going_upwards = false;
    assert_eq!(scan(&mut cursor), (1..=11).map(|i| 10 * i).collect::<Vec<u64>>());
}

#[test]
fn a_scan_of_a_single_leaf() {
    let mut cursor = new_cursor(PageType::IndexLeaf);
    let mut page = cursor.pager.take(ROOT);
    for (i, k) in [3i64, 4, 5].iter().enumerate() {
        cursor.insert_into_cell(&mut page, &index_cell(None, &entry(*k, 100 + *k)), i);
    }
    cursor.pager.put(ROOT, page);
    assert_eq!(scan(&mut cursor), vec![103, 104, 105]);
    assert_eq!(scan(&mut cursor), vec![103, 104, 105]);
}

#[test]
fn a_search_finds_the_first_entry_that_it_asks_for() {
    for k in 0..=120i64 {
        for op in [SeekOp::GT, SeekOp::GE] {
            let mut cursor = index();
            let wanted = key(k);
            let hit = cursor.seek_to(SeekKey::IndexKey(&wanted), op);
            // an entry with the same key goes on behind the key, so it is greater
            let want = (1..=11).map(|i| 10 * i).find(|e| *e >= k).map(|e| e as u64);
            assert!(matches!(hit, Ok(CursorResult::Done(found)) if found == want.is_some()));
            assert_eq!(cursor.rowid(), Ok(want), "{}", k);
        }
    }
}

#[test]
fn a_search_for_whole_entries() {
    for k in 1..=12i64 {
        let wanted = entry(10 * k, 10 * k);
        let mut cursor = index();
        assert!(cursor.seek_to(SeekKey::IndexKey(&wanted), SeekOp::EQ).is_ok());
        let there = if k <= 11 { Some(10 * k as u64) } else { None };
        assert_eq!(cursor.rowid(), Ok(there));
        let mut cursor = index();
        assert!(cursor.seek_to(SeekKey::IndexKey(&wanted), SeekOp::GT).is_ok());
        let next = if k <= 10 { Some(10 * k as u64 + 10) } else { None };
        assert_eq!(cursor.rowid(), Ok(next));
    }
    let mut cursor = index();
    let other = entry(40, 41);
    let hit = cursor.seek_to(SeekKey::IndexKey(&other), SeekOp::EQ);
    assert!(matches!(hit, Ok(CursorResult::Done(false))));
}

#[test]
fn a_search_may_end_above_its_leaf() {
    // the leaf left of 50 has nothing greater than 45
    let mut cursor = index();
    let wanted = key(45);
    assert!(cursor.seek_to(SeekKey::IndexKey(&wanted), SeekOp::GT).is_ok());
    assert_eq!(cursor.rowid(), Ok(Some(50)));
    // and from there the next entries are met
    assert!(cursor.next().is_ok());
    assert_eq!(cursor.rowid(), Ok(Some(60)));
}
