//! What a statement does with a cursor: read rows in order, look one up,
//! insert one.

use vstd::prelude::*;
use crate::balance::first_at_least;
use crate::cell::{cell_at, BTreeCell, CellModel, Fetch};
use crate::cursor::{lemma_touch_sized, BTreeCursor, CursorModel};
use crate::descent::{root_stack, Landing};
use crate::errors::StorageError;
use crate::order::{CursorResult, KeyModel, SeekKey, SeekOp};
use crate::pager::{loaded, page_of};
use crate::record::{as_unsigned, to_unsigned, OwnedRecord, OwnedValue};
use crate::walk::{lemma_landed_leaf, predicate_model, tells_found, Found};

verus! {

/// Whether `r` tells that a step that found `found` is done.
pub open spec fn tells_done(found: Found, r: Result<CursorResult<()>, StorageError>) -> bool {
    match found {
        Found::Entry { .. } => r is Ok && r->Ok_0 is Done,
        Found::End => r is Ok && r->Ok_0 is Done,
        Found::Wait(_) => r is Ok && r->Ok_0 is IO,
        Found::Fail(e) => r is Err && r->Err_0 == e,
        Found::Stray => false,
    }
}

/// What looking up a row comes to.
#[verifier::ext_equal]
pub enum Lookup {
    /// Whether the row is there.
    Answer(bool),
    Wait(usize),
    Fail(StorageError),
    /// The tree is not a table's.
    Stray,
}

/// Whether `r` tells what looking up a row came to.
pub open spec fn tells_lookup(l: Lookup, r: Result<CursorResult<bool>, StorageError>) -> bool {
    match l {
        Lookup::Answer(b) => r is Ok && r->Ok_0 is Done && r->Ok_0->Done_0 == b,
        Lookup::Wait(_) => r is Ok && r->Ok_0 is IO,
        Lookup::Fail(e) => r is Err && r->Err_0 == e,
        Lookup::Stray => false,
    }
}

impl CursorModel {
    /// The cursor with the entry that was found as its current one. One that
    /// has to wait, or has failed, keeps the entry that it had.
    pub open spec fn holding(self, found: Found) -> CursorModel {
        match found {
            Found::Entry { rowid, record } => CursorModel {
                rowid: Some(rowid as u64),
                record: Some(record),
                ..self
            },
            Found::End => CursorModel { rowid: None, record: None, ..self },
            _ => self,
        }
    }

    /// The cursor at the root.
    pub open spec fn at_root(self) -> CursorModel {
        CursorModel {
            pager: self.pager.touch(self.root_page),
            stack: root_stack(self.root_page),
            ..self
        }
    }

    /// The cursor at the end of the way to the last row.
    pub open spec fn at_last(self) -> CursorModel {
        self.moved(self.right_edge())
    }

    /// The cursor once it has asked for the root.
    pub open spec fn asking_root(self) -> CursorModel {
        CursorModel { pager: self.pager.touch(self.root_page), ..self }
    }

    /// Whether the row is on the leaf at which the cursor is.
    pub open spec fn lookup_on_leaf(self, rowid: int) -> Lookup {
        let page = self.top_page();
        match first_at_least(page, rowid, self.usable(), 0) {
            None => Lookup::Stray,
            Some(i) => if i >= page.cell_count() {
                Lookup::Answer(false)
            } else {
                match cell_at(self.pages(), page, i, self.usable()) {
                    Fetch::Ready(CellModel::TableLeaf { rowid: r, .. }) => Lookup::Answer(
                        r == rowid,
                    ),
                    Fetch::Ready(_) => Lookup::Stray,
                    Fetch::Wait(id) => Lookup::Wait(id),
                    Fetch::Corrupt => Lookup::Fail(StorageError::CorruptPage),
                }
            },
        }
    }

    /// Whether the row is in the tree.
    pub open spec fn lookup(self, rowid: int) -> Lookup {
        let d = self.descent(KeyModel::RowId(rowid), SeekOp::EQ);
        match d.end {
            Landing::Leaf => self.moved(d).lookup_on_leaf(rowid),
            Landing::Wait(id) => Lookup::Wait(id),
            Landing::Fail(e) => Lookup::Fail(e),
            Landing::Stray => Lookup::Stray,
        }
    }

    /// The cursor after it looked up a row.
    pub open spec fn looked_up(self, rowid: int) -> CursorModel {
        let d = self.descent(KeyModel::RowId(rowid), SeekOp::EQ);
        let m = self.moved(d);
        match (d.end, self.lookup(rowid)) {
            (Landing::Leaf, Lookup::Wait(id)) => CursorModel { pager: m.pager.touch(id), ..m },
            _ => m,
        }
    }
}

/// The row id that an integer key stands for.
pub open spec fn key_rowid(key: OwnedValue) -> u64 {
    to_unsigned(key->Integer_0 as int) as u64
}

impl BTreeCursor {
    /// Makes what was found the cursor's current entry.
    fn hold(
        &mut self,
        x: Result<CursorResult<(Option<u64>, Option<OwnedRecord>)>, StorageError>,
        Ghost(found): Ghost<Found>,
    ) -> (r: Result<CursorResult<()>, StorageError>)
        requires
            tells_found(found, x),
        ensures
            final(self)@ == old(self)@.holding(found),
            tells_done(found, r),
    {
        match x {
            Ok(CursorResult::Done((rowid, next))) => {
                self.rowid = rowid;
                self.record = next;
                assert(self@ =~= old(self)@.holding(found));
                Ok(CursorResult::Done(()))
            },
            Ok(CursorResult::IO) => Ok(CursorResult::IO),
            Err(e) => Err(e),
        }
    }

    /// Goes to the last entry.
    pub fn seek_to_last(&mut self) -> (r: Result<CursorResult<()>, StorageError>)
        requires
            old(self)@.inv(),
            !(old(self)@.right_edge().end is Fail) ==> {
                let found = old(self)@.at_last().following(None).found;
                &&& !(found is Stray)
                &&& found is End ==> !loaded(old(self)@.pages(), old(self).root_page) || page_of(
                    old(self)@.pages(),
                    old(self).root_page,
                ).cell_count() == 0
            },
        ensures
            final(self)@.inv(),
            match old(self)@.right_edge().end {
                Landing::Fail(e) => {
                    &&& r is Err && r->Err_0 == e
                    &&& final(self)@ == old(self)@.at_last()
                },
                _ => {
                    let last = old(self)@.at_last();
                    let x = last.following(None);
                    let c = last.walked(x).holding(x.found);
                    &&& tells_done(x.found, r)
                    &&& final(self)@ == (if x.found is End {
                        c.asking_root()
                    } else {
                        c
                    })
                },
            },
    {
        match self.move_to_rightmost() {
            Err(e) => {
                return Err(e);
            },
            Ok(_) => {},
        }
        let ghost x = self@.following(None);
        assert(predicate_model(None) == None::<(KeyModel, SeekOp)>);
        let next = self.get_next_record(None);
        match &next {
            Ok(CursorResult::Done((None, _))) => {
                let _ = self.is_empty_table();
            },
            _ => {},
        }
        self.hold(next, Ghost(x.found))
    }

    /// Whether the cursor has no current entry.
    pub fn is_empty(&self) -> (b: bool)
        ensures
            b == (self@.record is None),
    {
        self.record.is_none()
    }

    /// Goes to the root and from there to the next entry. This is the first entry of
    /// the tree, except on an index of two levels or more after a walk that ended
    /// on its way up: `going_upwards` is still set, and the first child of the root
    /// is passed over. A walk to the end of such an index ends so.
    pub fn rewind(&mut self) -> (r: Result<CursorResult<()>, StorageError>)
        requires
            old(self)@.inv(),
            !(old(self)@.at_root().following(None).found is Stray),
        ensures
            final(self)@.inv(),
            ({
                let x = old(self)@.at_root().following(None);
                &&& tells_done(x.found, r)
                &&& final(self)@ == old(self)@.at_root().walked(x).holding(x.found)
            }),
            final(self)@.stack.len() > 0,
    {
        self.move_to_root();
        let ghost x = self@.following(None);
        let next = self.get_next_record(None);
        self.hold(next, Ghost(x.found))
    }

    /// Goes to the next entry.
    pub fn next(&mut self) -> (r: Result<CursorResult<()>, StorageError>)
        requires
            old(self)@.inv(),
            old(self)@.stack.len() > 0,
            !(old(self)@.following(None).found is Stray),
        ensures
            final(self)@.inv(),
            tells_done(old(self)@.following(None).found, r),
            final(self)@ == old(self)@.walked(old(self)@.following(None)).holding(
                old(self)@.following(None).found,
            ),
            final(self)@.stack.len() > 0,
    {
        let ghost x = self@.following(None);
        let next = self.get_next_record(None);
        self.hold(next, Ghost(x.found))
    }

    /// There is nothing to wait for: a step that needs a page says so.
    pub fn wait_for_completion(&mut self) -> (r: Result<(), StorageError>)
        ensures
            r is Ok,
            *final(self) == *old(self),
    {
        Ok(())
    }

    /// The row id of the current entry.
    pub fn rowid(&self) -> (r: Result<Option<u64>, StorageError>)
        ensures
            r is Ok,
            r->Ok_0 == self@.rowid,
    {
        Ok(self.rowid)
    }

    /// Goes to the first entry that stands to `key` as `op` says and makes it
    /// the current one; tells whether there is one.
    pub fn seek_to(&mut self, key: SeekKey<'_>, op: SeekOp) -> (r: Result<
        CursorResult<bool>,
        StorageError,
    >)
        requires
            old(self)@.inv(),
            !(old(self)@.search(key@, op).found is Stray),
        ensures
            final(self)@.inv(),
            final(self)@ == old(self)@.walked(old(self)@.search(key@, op)).holding(
                old(self)@.search(key@, op).found,
            ),
            match old(self)@.search(key@, op).found {
                Found::Entry { .. } => r is Ok && r->Ok_0 is Done && r->Ok_0->Done_0,
                Found::End => r is Ok && r->Ok_0 is Done && !r->Ok_0->Done_0,
                Found::Wait(_) => r is Ok && r->Ok_0 is IO,
                Found::Fail(e) => r is Err && r->Err_0 == e,
                Found::Stray => false,
            },
            final(self)@.stack.len() > 0,
    {
        let ghost x = self@.search(key@, op);
        let next = self.seek(key, op);
        let found: bool = match &next {
            Ok(CursorResult::Done((Some(_), _))) => true,
            _ => false,
        };
        match self.hold(next, Ghost(x.found)) {
            Ok(CursorResult::Done(_)) => Ok(CursorResult::Done(found)),
            Ok(CursorResult::IO) => Ok(CursorResult::IO),
            Err(e) => Err(e),
        }
    }

    /// The current entry.
    pub fn record(&self) -> (r: Result<&Option<OwnedRecord>, StorageError>)
        ensures
            r is Ok,
            *r->Ok_0 == self.record,
    {
        Ok(&self.record)
    }

    /// Inserts a row. With `moved_before` the cursor is already at the leaf
    /// where the row belongs.
    pub fn insert(&mut self, key: &OwnedValue, record: &OwnedRecord, moved_before: bool) -> (r:
        Result<CursorResult<()>, StorageError>)
        requires
            old(self)@.inv(),
            key is Integer,
            moved_before ==> old(self)@.written(key_rowid(*key), record@).ok,
            !moved_before ==> {
                let d = old(self)@.descent(KeyModel::RowId(key_rowid(*key) as int), SeekOp::EQ);
                &&& !(d.end is Stray)
                &&& d.end is Leaf ==> old(self)@.moved(d).written(key_rowid(*key), record@).ok
            },
        ensures
            final(self)@.inv(),
            ({
                let rowid = key_rowid(*key);
                let d = old(self)@.descent(KeyModel::RowId(rowid as int), SeekOp::EQ);
                let m = old(self)@.moved(d);
                if moved_before || d.end is Leaf {
                    let w = if moved_before {
                        old(self)@.written(rowid, record@)
                    } else {
                        m.written(rowid, record@)
                    };
                    &&& final(self)@ == w.cursor
                    &&& r is Ok
                    &&& r->Ok_0 is IO <==> w.waits
                } else {
                    &&& final(self)@ == m
                    &&& match d.end {
                        Landing::Fail(e) => r is Err && r->Err_0 == e,
                        _ => r is Ok && r->Ok_0 is IO,
                    }
                }
            }),
    {
        let int_key: u64 = match key {
            OwnedValue::Integer(i) => as_unsigned(*i),
            _ => 0,
        };
        if !moved_before {
            match self.move_to(SeekKey::TableRowId(int_key), SeekOp::EQ) {
                Ok(CursorResult::Done(_)) => {},
                Ok(CursorResult::IO) => {
                    return Ok(CursorResult::IO);
                },
                Err(e) => {
                    return Err(e);
                },
            }
        }
        self.insert_into_page(key, record)
    }

    /// Sets whether the cursor stands for a row of nulls.
    pub fn set_null_flag(&mut self, flag: bool)
        ensures
            final(self)@ == (CursorModel { null_flag: flag, ..old(self)@ }),
    {
        self.null_flag = flag;
    }

    /// Whether the cursor stands for a row of nulls.
    pub fn get_null_flag(&self) -> (b: bool)
        ensures
            b == self@.null_flag,
    {
        self.null_flag
    }

    /// Whether the table has a row with the given row id.
    pub fn row_exists(&mut self, key: &OwnedValue) -> (r: Result<CursorResult<bool>, StorageError>)
        requires
            old(self)@.inv(),
            key is Integer,
            !(old(self)@.lookup(key_rowid(*key) as int) is Stray),
        ensures
            final(self)@.inv(),
            final(self)@ == old(self)@.looked_up(key_rowid(*key) as int),
            tells_lookup(old(self)@.lookup(key_rowid(*key) as int), r),
    {
        let ghost start = self@;
        let int_key: u64 = match key {
            OwnedValue::Integer(i) => as_unsigned(*i),
            _ => 0,
        };
        match self.move_to(SeekKey::TableRowId(int_key), SeekOp::EQ) {
            Ok(CursorResult::Done(_)) => {},
            Ok(CursorResult::IO) => {
                return Ok(CursorResult::IO);
            },
            Err(e) => {
                return Err(e);
            },
        }
        proof {
            lemma_landed_leaf(
                start.pages(),
                root_stack(start.root_page),
                KeyModel::RowId(int_key as int),
                SeekOp::EQ,
                start.usable(),
            );
        }
        let usable = self.usable_space();
        let cell = match self.pager.contents(self.top_from_stack()) {
            None => {
                return Ok(CursorResult::IO);
            },
            Some(page) => {
                assert(loaded(self@.pages(), self@.top().page));
                // find cell
                let cell_idx = self.find_cell(page, int_key);
                if cell_idx >= page.cell_count() {
                    return Ok(CursorResult::Done(false));
                }
                page.cell_get(cell_idx, &self.pager, usable)
            },
        };
        match cell {
            Fetch::Ready(BTreeCell::TableLeafCell { rowid, .. }) => Ok(
                CursorResult::Done(rowid == int_key),
            ),
            Fetch::Ready(_) => {
                assert(false);
                Ok(CursorResult::Done(false))
            },
            Fetch::Wait(id) => {
                proof {
                    lemma_touch_sized(self@.pager, id, self@.header.page_size as int);
                }
                self.pager.read_page(id);
                Ok(CursorResult::IO)
            },
            Fetch::Corrupt => Err(StorageError::CorruptPage),
        }
    }
}

} // verus!
