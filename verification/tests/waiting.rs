use btree_cursor::cursor::BTreeCursor;
use btree_cursor::errors::StorageError;
use btree_cursor::order::{CursorResult, SeekKey, SeekOp};
use btree_cursor::page::PageType;
use btree_cursor::pager::{DatabaseHeader, Pager};
use btree_cursor::record::{OwnedRecord, OwnedValue};

const ROOT: usize = 2;

fn header(database_size: u32) -> DatabaseHeader {
    DatabaseHeader { page_size: 512, unused_space: 0, database_size }
}

fn blob(n: usize, fill: u8) -> OwnedRecord {
    OwnedRecord { values: vec![OwnedValue::Blob(vec![fill; n])] }
}

/// The pages of a table with these rows, by their numbers.
fn stored(rows: i64, len: usize) -> Vec<Vec<u8>> {
    let mut cursor = BTreeCursor::new(Pager::new(), ROOT, header(1));
    cursor.allocate_page(PageType::TableLeaf);
    for rowid in 1..=rows {
        let done = cursor.insert(&OwnedValue::Integer(rowid), &blob(len, rowid as u8), false);
        assert!(matches!(done, Ok(CursorResult::Done(()))));
    }
    let mut pages = vec![Vec::new(), Vec::new()];
    for id in 2..=cursor.database_header.database_size as usize {
        pages.push(cursor.pager.contents(id).unwrap().buf.clone());
    }
    pages
}

/// Brings the pages that the cursor has asked for.
fn bring(cursor: &mut BTreeCursor, pages: &[Vec<u8>]) -> Vec<usize> {
    let asked = cursor.pager.take_requests();
    for id in &asked {
        assert!(cursor.pager.is_locked(*id));
        cursor.pager.finish_read(*id, pages[*id].clone());
    }
    asked
}

#[test]
fn a_search_waits_for_each_page_on_its_way() {
    let pages = stored(5, 100);
    let mut cursor = BTreeCursor::new(Pager::new(), ROOT, header(4));
    let mut asked = Vec::new();
    loop {
        match cursor.seek_to(SeekKey::TableRowId(4), SeekOp::EQ) {
            Ok(CursorResult::IO) => asked.extend(bring(&mut cursor, &pages)),
            Ok(CursorResult::Done(found)) => {
                assert!(found);
                break;
            }
            Err(_) => panic!("corrupt"),
        }
    }
    assert_eq!(asked, vec![2, 4]);
    assert_eq!(cursor.rowid(), Ok(Some(4)));
}

#[test]
fn a_scan_waits_for_each_page() {
    let pages = stored(12, 100);
    let mut cursor = BTreeCursor::new(Pager::new(), ROOT, header(pages.len() as u32 - 1));
    let mut found = Vec::new();
    while !matches!(cursor.rewind(), Ok(CursorResult::Done(()))) {
        bring(&mut cursor, &pages);
    }
    while let Ok(Some(rowid)) = cursor.rowid() {
        found.push(rowid);
        while !matches!(cursor.next(), Ok(CursorResult::Done(()))) {
            assert!(!bring(&mut cursor, &pages).is_empty());
        }
    }
    assert_eq!(found, (1..=12).collect::<Vec<u64>>());
}

#[test]
fn an_insertion_waits_for_its_leaf() {
    let pages = stored(5, 100);
    let mut cursor = BTreeCursor::new(Pager::new(), ROOT, header(4));
    let mut waits = 0;
    while !matches!(
        cursor.insert(&OwnedValue::Integer(6), &blob(100, 6), false),
        Ok(CursorResult::Done(()))
    ) {
        waits += 1;
        bring(&mut cursor, &pages);
    }
    assert_eq!(waits, 2);
    let there = cursor.row_exists(&OwnedValue::Integer(6));
    assert!(matches!(there, Ok(CursorResult::Done(true))));
}

#[test]
fn a_payload_waits_for_its_overflow_pages() {
    let pages = stored(1, 1000);
    assert_eq!(pages.len(), 5);
    let mut cursor = BTreeCursor::new(Pager::new(), ROOT, header(4));
    let mut asked = Vec::new();
    while !matches!(cursor.rewind(), Ok(CursorResult::Done(()))) {
        asked.extend(bring(&mut cursor, &pages));
    }
    assert_eq!(asked, vec![2, 3, 4]);
    match cursor.record() {
        Ok(Some(r)) => assert!(matches!(&r.values[0], OwnedValue::Blob(b) if *b == vec![1; 1000])),
        _ => panic!("no record"),
    }
}

#[test]
fn a_cursor_refuses_a_page_of_no_known_type() {
    let mut cursor = BTreeCursor::new(Pager::new(), ROOT, header(2));
    assert!(matches!(cursor.rewind(), Ok(CursorResult::IO)));
    bring(&mut cursor, &[vec![], vec![], vec![0; 512]]);
    assert!(matches!(cursor.rewind(), Err(StorageError::CorruptPage)));
    assert!(matches!(
        cursor.move_to(SeekKey::TableRowId(1), SeekOp::EQ),
        Err(StorageError::CorruptPage)
    ));
}

#[test]
fn a_chain_that_ends_too_early_is_corrupt() {
    let mut pages = stored(1, 1000);
    for byte in pages[3].iter_mut().take(4) {
        *byte = 0;
    }
    let mut cursor = BTreeCursor::new(Pager::new(), ROOT, header(4));
    let mut r = cursor.rewind();
    while matches!(r, Ok(CursorResult::IO)) {
        bring(&mut cursor, &pages);
        r = cursor.rewind();
    }
    assert!(matches!(r, Err(StorageError::CorruptPage)));
}

#[test]
fn a_payload_that_is_no_record_is_corrupt() {
    let mut cursor = BTreeCursor::new(Pager::new(), ROOT, header(1));
    cursor.allocate_page(PageType::TableLeaf);
    let mut page = cursor.pager.take(ROOT);
    cursor.insert_into_cell(&mut page, &[2, 1, 9, 9], 0);
    cursor.pager.put(ROOT, page);
    assert!(matches!(cursor.rewind(), Err(StorageError::CorruptRecord)));
}

#[test]
fn a_tree_that_is_too_deep_is_refused() {
    let mut cursor = BTreeCursor::new(Pager::new(), ROOT, header(1));
    cursor.allocate_page(PageType::TableInterior);
    let mut page = cursor.pager.take(ROOT);
    page.write_u32(8, ROOT as u32);
    cursor.pager.put(ROOT, page);
    assert!(matches!(cursor.rewind(), Err(StorageError::TreeTooDeep)));
    assert!(matches!(
        cursor.move_to(SeekKey::TableRowId(1), SeekOp::EQ),
        Err(StorageError::TreeTooDeep)
    ));
    assert!(matches!(cursor.move_to_rightmost(), Err(StorageError::TreeTooDeep)));
}

#[test]
fn the_first_page_has_its_header_behind_that_of_the_file() {
    let mut pager = Pager::new();
    pager.read_page(1);
    pager.read_page(2);
    pager.read_page(1);
    assert_eq!(pager.take_requests(), vec![1, 2]);
    assert_eq!(pager.take_requests(), Vec::<usize>::new());
    pager.finish_read(1, vec![0; 512]);
    assert_eq!(pager.contents(1).unwrap().offset, 100);
    assert!(!pager.is_locked(1));
    assert!(pager.is_locked(2));
}

#[test]
fn more_pages_in_memory_change_no_answer() {
    let pages = stored(12, 100);
    let mut cursor = BTreeCursor::new(Pager::new(), ROOT, header(pages.len() as u32 - 1));
    while !matches!(
        cursor.seek_to(SeekKey::TableRowId(5), SeekOp::GE),
        Ok(CursorResult::Done(true))
    ) {
        bring(&mut cursor, &pages);
    }
    for id in 2..pages.len() {
        cursor.pager.read_page(id);
        bring(&mut cursor, &pages);
        assert!(matches!(
            cursor.seek_to(SeekKey::TableRowId(5), SeekOp::GE),
            Ok(CursorResult::Done(true))
        ));
        assert_eq!(cursor.rowid(), Ok(Some(5)));
        assert!(matches!(
            cursor.row_exists(&OwnedValue::Integer(5)),
            Ok(CursorResult::Done(true))
        ));
    }
}
