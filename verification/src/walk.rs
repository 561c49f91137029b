//! From one entry of the tree to the next, and the search for an entry.

use vstd::prelude::*;
use crate::cell::{cell_at, BTreeCell, CellModel, Fetch};
use crate::cursor::{
    at_index, lemma_touch_sized, pushed, BTCURSOR_MAX_DEPTH, BTreeCursor, CursorModel, Frame,
};
use crate::descent::{descend, root_stack, route, Landing, Route};
use crate::errors::StorageError;
use crate::order::{
    int_order, order_records, order_row_ids, record_order, satisfies, CursorResult, KeyModel,
    SeekKey, SeekOp,
};
use crate::page::{leaf_type, PageContent, PageModel};
use crate::pager::{loaded, page_of, PageState, PagerModel};
use crate::record::{
    as_unsigned, parse_record, read_record, to_unsigned, OwnedRecord, OwnedValue, ValueModel,
};

verus! {

/// What a step through the tree came to.
#[verifier::ext_equal]
pub enum Found {
    /// An entry and its row id.
    Entry { rowid: int, record: Seq<ValueModel> },
    /// There is no further entry.
    End,
    /// The page is not in memory.
    Wait(usize),
    Fail(StorageError),
    /// The tree is not of the kind that was asked for, or the cursor stands
    /// behind the end of a page.
    Stray,
}

/// A place in the tree: the pages from the root down, and whether the top one
/// was reached from below.
#[verifier::ext_equal]
pub struct Walk {
    pub stack: Seq<Frame>,
    pub upwards: bool,
}

/// What was found, and the place where the search for it ended.
#[verifier::ext_equal]
pub struct Walked {
    pub walk: Walk,
    pub found: Found,
}

/// One step: on to another place, or to an end.
pub enum Step {
    Go(Walk),
    Stop(Walked),
}

/// The row id that an index entry ends with.
pub open spec fn index_rowid(record: Seq<ValueModel>) -> Option<int> {
    if record.len() == 0 {
        None
    } else {
        match record.last() {
            ValueModel::Integer(i) => Some(to_unsigned(i)),
            _ => None,
        }
    }
}

/// The index entry `record` as something found.
pub open spec fn index_entry(record: Seq<ValueModel>) -> Found {
    match index_rowid(record) {
        Some(rowid) => Found::Entry { rowid, record },
        None => Found::Stray,
    }
}

/// Up to the parent, or to the end of the tree at the root.
pub open spec fn up(w: Walk, at_root: Walk) -> Step {
    if w.stack.len() > 1 {
        Step::Go(Walk { stack: w.stack.drop_last(), upwards: true })
    } else {
        Step::Stop(Walked { walk: at_root, found: Found::End })
    }
}

/// Down to `child`, from a place in the page above it.
pub open spec fn down(w: Walk, child: int) -> Step {
    if w.stack.len() > BTCURSOR_MAX_DEPTH {
        Step::Stop(Walked { walk: w, found: Found::Fail(StorageError::TreeTooDeep) })
    } else {
        Step::Go(Walk { stack: pushed(w.stack, child), ..w })
    }
}

/// Whether the index entry with `payload` is what is looked for, and as what
/// it is then found; `None` if the search goes on.
pub open spec fn verdict(payload: Seq<u8>, predicate: Option<(KeyModel, SeekOp)>) -> Option<Found> {
    match parse_record(payload) {
        None => Some(Found::Fail(StorageError::CorruptRecord)),
        Some(record) => match predicate {
            None => Some(index_entry(record)),
            Some((KeyModel::RowId(_), _)) => Some(Found::Stray),
            Some((KeyModel::Index(k), op)) => if satisfies(record_order(record, k), op) {
                Some(index_entry(record))
            } else {
                None
            },
        },
    }
}

/// At the index entry with `payload`, having left it behind as `w` says.
pub open spec fn at_entry(
    w: Walk,
    payload: Seq<u8>,
    predicate: Option<(KeyModel, SeekOp)>,
) -> Step {
    match verdict(payload, predicate) {
        Some(found) => Step::Stop(Walked { walk: w, found }),
        None => Step::Go(w),
    }
}

/// At cell `cell` of the top page.
pub open spec fn at_cell(w: Walk, cell: CellModel, predicate: Option<(KeyModel, SeekOp)>) -> Step {
    let next = Walk { stack: at_index(w.stack, w.stack.last().index + 1), ..w };
    match cell {
        CellModel::TableInterior { child, .. } => if predicate is Some {
            Step::Stop(Walked { walk: w, found: Found::Stray })
        } else {
            down(next, child)
        },
        CellModel::TableLeaf { rowid, payload } => if predicate is Some {
            Step::Stop(Walked { walk: w, found: Found::Stray })
        } else {
            match parse_record(payload) {
                None => Step::Stop(
                    Walked { walk: next, found: Found::Fail(StorageError::CorruptRecord) },
                ),
                Some(record) => Step::Stop(
                    Walked { walk: next, found: Found::Entry { rowid, record } },
                ),
            }
        },
        CellModel::IndexInterior { child, payload } => if !w.upwards {
            down(w, child)
        } else {
            at_entry(Walk { upwards: false, ..next }, payload, predicate)
        },
        CellModel::IndexLeaf { payload } => at_entry(next, payload, predicate),
    }
}

/// One step through the tree. A page's children are visited where they stand
/// between its cells, and an index's interior cell after its left child.
pub open spec fn step(
    pages: Map<usize, PageState>,
    w: Walk,
    predicate: Option<(KeyModel, SeekOp)>,
    usable: int,
) -> Step {
    let id = w.stack.last().page;
    let index = w.stack.last().index as int;
    let page = page_of(pages, id);
    if !loaded(pages, id) {
        Step::Stop(Walked { walk: w, found: Found::Wait(id) })
    } else if page.page_type() is None {
        Step::Stop(Walked { walk: w, found: Found::Fail(StorageError::CorruptPage) })
    } else if index == page.cell_count() {
        let next = Walk { stack: at_index(w.stack, index + 1), ..w };
        if leaf_type(page.kind()) {
            up(w, next)
        } else {
            down(next, page.rightmost())
        }
    } else if index == page.cell_count() + 1 {
        up(w, w)
    } else if index > page.cell_count() {
        Step::Stop(Walked { walk: w, found: Found::Stray })
    } else {
        match cell_at(pages, page, index, usable) {
            Fetch::Corrupt => Step::Stop(
                Walked { walk: w, found: Found::Fail(StorageError::CorruptPage) },
            ),
            Fetch::Wait(id) => Step::Stop(Walked { walk: w, found: Found::Wait(id) }),
            Fetch::Ready(cell) => at_cell(w, cell, predicate),
        }
    }
}

// ---------------------------------------------------------------------------
// A walk comes to an end
// ---------------------------------------------------------------------------

/// How many places are left on the page of a frame, at least one.
pub open spec fn places_left(pages: Map<usize, PageState>, f: Frame) -> int {
    let n = page_of(pages, f.page).cell_count() + 2 - f.index;
    if !loaded(pages, f.page) || n < 1 || n > 65537 {
        1
    } else {
        n
    }
}

/// What level `l` of a walk adds to its length.
pub open spec fn digit(pages: Map<usize, PageState>, w: Walk, l: int) -> int {
    if l < w.stack.len() - 1 {
        3 * places_left(pages, w.stack[l]) - 1
    } else if l == w.stack.len() - 1 {
        if w.upwards {
            3 * places_left(pages, w.stack[l]) - 2
        } else {
            3 * places_left(pages, w.stack[l])
        }
    } else {
        0
    }
}

/// The number with the digits of the first `n` levels.
pub open spec fn digits(pages: Map<usize, PageState>, w: Walk, n: nat) -> int
    decreases n,
{
    if n == 0 {
        0
    } else {
        digits(pages, w, (n - 1) as nat) * 200000 + digit(pages, w, n - 1)
    }
}

/// A number that each step makes smaller.
pub open spec fn distance(pages: Map<usize, PageState>, w: Walk) -> int {
    digits(pages, w, 21)
}

proof fn lemma_digit_range(pages: Map<usize, PageState>, w: Walk, l: int)
    ensures
        0 <= digit(pages, w, l) < 200000,
{
}

proof fn lemma_digits_same(pages: Map<usize, PageState>, a: Walk, b: Walk, n: nat)
    requires
        forall|l: int| 0 <= l < n ==> #[trigger] digit(pages, a, l) == digit(pages, b, l),
    ensures
        digits(pages, a, n) == digits(pages, b, n),
    decreases n,
{
    if n > 0 {
        lemma_digits_same(pages, a, b, (n - 1) as nat);
        assert(digit(pages, a, n - 1) == digit(pages, b, n - 1));
    }
}

proof fn lemma_digits_less(pages: Map<usize, PageState>, a: Walk, b: Walk, k: int, n: nat)
    requires
        0 <= k < n,
        forall|l: int| 0 <= l < k ==> #[trigger] digit(pages, a, l) == digit(pages, b, l),
        digit(pages, a, k) < digit(pages, b, k),
    ensures
        digits(pages, a, n) < digits(pages, b, n),
    decreases n,
{
    lemma_digit_range(pages, a, n - 1);
    lemma_digit_range(pages, b, n - 1);
    if k == n - 1 {
        lemma_digits_same(pages, a, b, (n - 1) as nat);
    } else {
        lemma_digits_less(pages, a, b, k, (n - 1) as nat);
    }
}

proof fn lemma_digits_nonneg(pages: Map<usize, PageState>, w: Walk, n: nat)
    ensures
        digits(pages, w, n) >= 0,
    decreases n,
{
    if n > 0 {
        lemma_digits_nonneg(pages, w, (n - 1) as nat);
        lemma_digit_range(pages, w, n - 1);
    }
}

/// Each step makes the distance smaller.
pub proof fn lemma_step_nearer(
    pages: Map<usize, PageState>,
    w: Walk,
    predicate: Option<(KeyModel, SeekOp)>,
    usable: int,
)
    requires
        0 < w.stack.len() <= 21,
        step(pages, w, predicate, usable) is Go,
    ensures
        0 <= distance(pages, step(pages, w, predicate, usable)->Go_0) < distance(pages, w),
        0 < step(pages, w, predicate, usable)->Go_0.stack.len() <= 21,
{
    let v = step(pages, w, predicate, usable)->Go_0;
    let n = w.stack.len();
    lemma_digits_nonneg(pages, v, 21);
    let k = if v.stack.len() < n {
        n - 2
    } else {
        n - 1
    };
    assert forall|l: int| 0 <= l < k implies #[trigger] digit(pages, v, l) == digit(
        pages,
        w,
        l,
    ) by {}
    lemma_digits_less(pages, v, w, k, 21);
}

/// The next entry that is looked for, from a place on.
pub open spec fn next_entry(
    pages: Map<usize, PageState>,
    w: Walk,
    predicate: Option<(KeyModel, SeekOp)>,
    usable: int,
) -> Walked
    decreases distance(pages, w),
    when 0 < w.stack.len() <= 21
    via next_entry_ends
{
    match step(pages, w, predicate, usable) {
        Step::Go(v) => next_entry(pages, v, predicate, usable),
        Step::Stop(x) => x,
    }
}

#[via_fn]
proof fn next_entry_ends(
    pages: Map<usize, PageState>,
    w: Walk,
    predicate: Option<(KeyModel, SeekOp)>,
    usable: int,
) {
    if step(pages, w, predicate, usable) is Go {
        lemma_step_nearer(pages, w, predicate, usable);
    }
}

// ---------------------------------------------------------------------------
// The search for an entry
// ---------------------------------------------------------------------------

/// What a search for `key` finds on a leaf.
pub enum Hit {
    /// Cell `index` is what is looked for, or it cannot be used.
    At { index: int, found: Found },
    /// No cell is what is looked for.
    Nowhere,
}

/// What a search for `key` finds on a leaf, once it has passed the first `i`
/// cells: the first cell that is what it looks for.
pub open spec fn search_leaf(
    pages: Map<usize, PageState>,
    page: PageModel,
    key: KeyModel,
    op: SeekOp,
    usable: int,
    i: int,
) -> Hit
    decreases page.cell_count() - i,
{
    if i >= page.cell_count() {
        Hit::Nowhere
    } else {
        match cell_at(pages, page, i, usable) {
            Fetch::Corrupt => Hit::At { index: i, found: Found::Fail(StorageError::CorruptPage) },
            Fetch::Wait(id) => Hit::At { index: i, found: Found::Wait(id) },
            Fetch::Ready(cell) => match (cell, key) {
                (CellModel::TableLeaf { rowid, payload }, KeyModel::RowId(k)) => if satisfies(
                    int_order(rowid, k),
                    op,
                ) {
                    match parse_record(payload) {
                        None => Hit::At {
                            index: i + 1,
                            found: Found::Fail(StorageError::CorruptRecord),
                        },
                        Some(record) => Hit::At {
                            index: i + 1,
                            found: Found::Entry { rowid, record },
                        },
                    }
                } else {
                    search_leaf(pages, page, key, op, usable, i + 1)
                },
                (CellModel::IndexLeaf { payload }, KeyModel::Index(k)) => match parse_record(
                    payload,
                ) {
                    None => Hit::At {
                        index: i + 1,
                        found: Found::Fail(StorageError::CorruptRecord),
                    },
                    Some(record) => if satisfies(record_order(record, k), op) {
                        Hit::At { index: i + 1, found: index_entry(record) }
                    } else {
                        search_leaf(pages, page, key, op, usable, i + 1)
                    },
                },
                _ => Hit::At { index: i, found: Found::Stray },
            },
        }
    }
}

/// What a search for `key` finds from the leaf where it belongs on. A table's
/// rows stand on leaves only; an index's entry may stand on a page above.
pub open spec fn search_from_leaf(
    pages: Map<usize, PageState>,
    w: Walk,
    key: KeyModel,
    op: SeekOp,
    usable: int,
) -> Walked {
    let page = page_of(pages, w.stack.last().page);
    match search_leaf(pages, page, key, op, usable, 0) {
        Hit::At { index, found } => Walked {
            walk: Walk { stack: at_index(w.stack, index), ..w },
            found,
        },
        Hit::Nowhere => {
            let passed = Walk { stack: at_index(w.stack, page.cell_count()), ..w };
            match key {
                KeyModel::RowId(_) => Walked { walk: passed, found: Found::End },
                KeyModel::Index(_) => next_entry(pages, passed, Some((key, op)), usable),
            }
        },
    }
}

impl CursorModel {
    /// The cursor's place.
    pub open spec fn walk(self) -> Walk {
        Walk { stack: self.stack, upwards: self.going_upwards }
    }

    /// The next entry that is looked for.
    pub open spec fn following(self, predicate: Option<(KeyModel, SeekOp)>) -> Walked {
        next_entry(self.pages(), self.walk(), predicate, self.usable())
    }

    /// What a search for `key` finds.
    pub open spec fn search(self, key: KeyModel, op: SeekOp) -> Walked {
        let d = self.descent(key, op);
        let w = Walk { stack: d.stack, upwards: self.going_upwards };
        match d.end {
            Landing::Leaf => search_from_leaf(self.pages(), w, key, op, self.usable()),
            Landing::Wait(id) => Walked { walk: w, found: Found::Wait(id) },
            Landing::Fail(e) => Walked { walk: w, found: Found::Fail(e) },
            Landing::Stray => Walked { walk: w, found: Found::Stray },
        }
    }

    /// The cursor after something was found.
    pub open spec fn walked(self, x: Walked) -> CursorModel {
        CursorModel {
            pager: waiting(self.pager, x.found),
            stack: x.walk.stack,
            going_upwards: x.walk.upwards,
            ..self
        }
    }
}

/// The pager, once the page that a step waits for was asked for.
pub open spec fn waiting(pager: PagerModel, found: Found) -> PagerModel {
    match found {
        Found::Wait(id) => pager.touch(id),
        _ => pager,
    }
}

/// Whether `r` tells what was found.
pub open spec fn tells_found(
    found: Found,
    r: Result<CursorResult<(Option<u64>, Option<OwnedRecord>)>, StorageError>,
) -> bool {
    match found {
        Found::Entry { rowid, record } => match r {
            Ok(CursorResult::Done((Some(id), Some(rec)))) => id == rowid && rec@ == record,
            _ => false,
        },
        Found::End => match r {
            Ok(CursorResult::Done((None, None))) => true,
            _ => false,
        },
        Found::Wait(_) => match r {
            Ok(CursorResult::IO) => true,
            _ => false,
        },
        Found::Fail(e) => r is Err && r->Err_0 == e,
        Found::Stray => false,
    }
}

/// What a [`SeekKey`] and a [`SeekOp`] together stand for.
pub open spec fn predicate_model(p: Option<(SeekKey<'_>, SeekOp)>) -> Option<(KeyModel, SeekOp)> {
    match p {
        Some((k, op)) => Some((k@, op)),
        None => None,
    }
}

/// The row id that an index entry ends with.
fn rowid_of(record: &OwnedRecord) -> (r: Option<u64>)
    ensures
        match r {
            Some(id) => index_rowid(record@) == Some(id as int),
            None => index_rowid(record@) is None,
        },
{
    if record.values.len() == 0 {
        return None;
    }
    match &record.values[record.values.len() - 1] {
        OwnedValue::Integer(i) => Some(as_unsigned(*i)),
        _ => None,
    }
}

/// Tests whether an index entry is what is looked for; `None` if it is not.
fn judge(payload: &Vec<u8>, predicate: &Option<(SeekKey<'_>, SeekOp)>) -> (r: Option<
    Result<CursorResult<(Option<u64>, Option<OwnedRecord>)>, StorageError>,
>)
    requires
        verdict(payload@, predicate_model(*predicate)) != Some(Found::Stray),
    ensures
        match r {
            Some(x) => verdict(payload@, predicate_model(*predicate)) is Some && tells_found(
                verdict(payload@, predicate_model(*predicate)).unwrap(),
                x,
            ),
            None => verdict(payload@, predicate_model(*predicate)) is None,
        },
{
    let record = match read_record(payload.as_slice()) {
        Ok(record) => record,
        Err(e) => {
            return Some(Err(e));
        },
    };
    let found: bool = match predicate {
        None => true,
        Some((SeekKey::IndexKey(index_key), op)) => op.is_met(order_records(&record, index_key)),
        Some((SeekKey::TableRowId(_), _)) => false,
    };
    if !found {
        return None;
    }
    let rowid = rowid_of(&record);
    Some(Ok(CursorResult::Done((rowid, Some(record)))))
}

/// What reading the top page came to.
enum Spot {
    Locked,
    Corrupt,
    /// Behind the last cell; the right-most child of an interior page.
    Behind { child: Option<u32> },
    /// Behind the right-most child.
    Through,
    Cell(BTreeCell),
    Wait(usize),
}

/// What searching a leaf came to.
enum LeafHit {
    /// The cell before `index` is what is looked for.
    At { index: usize, rowid: Option<u64>, record: OwnedRecord },
    Fail { index: usize, error: StorageError },
    Wait { index: usize, id: usize },
    Nowhere { count: usize },
}

/// Whether `x` is what `hit` says.
spec fn is_hit(x: LeafHit, hit: Hit, page: PageModel) -> bool {
    match x {
        LeafHit::At { index, rowid, record } => rowid is Some && hit == (Hit::At {
            index: index as int,
            found: Found::Entry { rowid: rowid.unwrap() as int, record: record@ },
        }) && index <= page.cell_count(),
        LeafHit::Fail { index, error } => hit == (Hit::At {
            index: index as int,
            found: Found::Fail(error),
        }) && index <= page.cell_count(),
        LeafHit::Wait { index, id } => hit == (Hit::At {
            index: index as int,
            found: Found::Wait(id),
        }) && index <= page.cell_count(),
        LeafHit::Nowhere { count } => hit is Nowhere && count == page.cell_count(),
    }
}

impl BTreeCursor {
    /// Looks at the cell at which the cursor is.
    fn look(&self) -> (spot: Spot)
        requires
            self@.inv(),
            self@.stack.len() > 0,
            loaded(self@.pages(), self@.top().page) ==> self@.top().index <= page_of(
                self@.pages(),
                self@.top().page,
            ).cell_count() + 1 || page_of(self@.pages(), self@.top().page).page_type() is None,
        ensures
            ({
                let id = self@.top().page;
                let index = self@.top().index as int;
                let page = page_of(self@.pages(), id);
                match spot {
                    Spot::Locked => !loaded(self@.pages(), id),
                    Spot::Corrupt => loaded(self@.pages(), id) && (page.page_type() is None || (
                    index < page.cell_count() && cell_at(self@.pages(), page, index, self@.usable())
                        == Fetch::<CellModel>::Corrupt)),
                    Spot::Behind { child } => loaded(self@.pages(), id) && page.page_type() is Some
                        && index == page.cell_count() && match child {
                        Some(c) => !leaf_type(page.kind()) && c == page.rightmost(),
                        None => leaf_type(page.kind()),
                    },
                    Spot::Through => loaded(self@.pages(), id) && page.page_type() is Some && index
                        == page.cell_count() + 1,
                    Spot::Cell(c) => loaded(self@.pages(), id) && page.page_type() is Some && index
                        < page.cell_count() && cell_at(self@.pages(), page, index, self@.usable())
                        == Fetch::Ready(c@),
                    Spot::Wait(w) => loaded(self@.pages(), id) && page.page_type() is Some && index
                        < page.cell_count() && cell_at(self@.pages(), page, index, self@.usable())
                        == Fetch::<CellModel>::Wait(w),
                }
            }),
    {
        let cell_idx = self.current_index();
        match self.pager.contents(self.top_from_stack()) {
            None => Spot::Locked,
            Some(page) => {
                assert(loaded(self@.pages(), self@.top().page));
                if page.page_type().is_err() {
                    return Spot::Corrupt;
                }
                let count = page.cell_count();
                if cell_idx == count {
                    return Spot::Behind { child: page.rightmost_pointer() };
                }
                if cell_idx == count + 1 {
                    return Spot::Through;
                }
                match page.cell_get(cell_idx, &self.pager, self.usable_space()) {
                    Fetch::Ready(cell) => Spot::Cell(cell),
                    Fetch::Wait(id) => Spot::Wait(id),
                    Fetch::Corrupt => Spot::Corrupt,
                }
            },
        }
    }

    /// Goes down to `child`, unless the tree is too deep.
    fn go_down(&mut self, child: u32) -> (ok: bool)
        requires
            old(self)@.inv(),
        ensures
            final(self)@.inv(),
            ok == (old(self)@.stack.len() <= BTCURSOR_MAX_DEPTH),
            ok ==> final(self)@ == (CursorModel {
                pager: old(self)@.pager.touch(child as usize),
                stack: pushed(old(self)@.stack, child as int),
                ..old(self)@
            }),
            !ok ==> final(self)@ == old(self)@,
    {
        if self.stack.len() > BTCURSOR_MAX_DEPTH {
            return false;
        }
        proof {
            lemma_touch_sized(self@.pager, child as usize, self@.header.page_size as int);
        }
        self.pager.read_page(child as usize);
        self.push_to_stack(child as usize);
        true
    }

    /// Goes to the next entry, or to the next one that is looked for.
    #[verifier::rlimit(40)]
    pub fn get_next_record(&mut self, predicate: Option<(SeekKey<'_>, SeekOp)>) -> (r: Result<
        CursorResult<(Option<u64>, Option<OwnedRecord>)>,
        StorageError,
    >)
        requires
            old(self)@.inv(),
            old(self)@.stack.len() > 0,
            !(old(self)@.following(predicate_model(predicate)).found is Stray),
        ensures
            final(self)@.inv(),
            final(self)@ == old(self)@.walked(old(self)@.following(predicate_model(predicate))),
            tells_found(old(self)@.following(predicate_model(predicate)).found, r),
            final(self)@.stack.len() > 0,
    {
        let ghost start = self@;
        let ghost pred = predicate_model(predicate);
        let ghost whole = self@.following(pred);
        let ghost size = self@.header.page_size as int;
        loop
            invariant
                start == old(self)@,
                start.inv(),
                size == start.header.page_size,
                pred == predicate_model(predicate),
                whole == start.following(pred),
                !(whole.found is Stray),
                self@.inv(),
                self@.stack.len() > 0,
                self@ == (CursorModel {
                    pager: start.pager.touch(self@.top().page),
                    stack: self@.stack,
                    going_upwards: self@.going_upwards,
                    ..start
                }),
                forall|i: int|
                    0 <= i < self@.stack.len() - 1 ==> start.pages().contains_key(
                        (#[trigger] self@.stack[i]).page,
                    ),
                whole == next_entry(start.pages(), self@.walk(), pred, start.usable()),
            decreases distance(start.pages(), self@.walk()),
        {
            let ghost w = self@.walk();
            let ghost st = step(start.pages(), w, pred, start.usable());
            proof {
                lemma_touch_sized(start.pager, self@.top().page, size);
                if st is Go {
                    lemma_step_nearer(start.pages(), w, pred, start.usable());
                }
            }
            match self.look() {
                Spot::Locked => {
                    return Ok(CursorResult::IO);
                },
                Spot::Corrupt => {
                    return Err(StorageError::CorruptPage);
                },
                Spot::Wait(id) => {
                    self.pager.read_page(id);
                    proof {
                        lemma_touch_sized(start.pager, id, size);
                    }
                    return Ok(CursorResult::IO);
                },
                Spot::Behind { child: Some(right_most_pointer) } => {
                    // do rightmost
                    self.advance();
                    if !self.go_down(right_most_pointer) {
                        return Err(StorageError::TreeTooDeep);
                    }
                },
                Spot::Behind { child: None } => {
                    if !self.has_parent() {
                        self.advance();
                        return Ok(CursorResult::Done((None, None)));
                    }
                    // moving simple upwards
                    self.going_upwards = true;
                    self.pop_from_stack();
                },
                Spot::Through => {
                    // end
                    if !self.has_parent() {
                        return Ok(CursorResult::Done((None, None)));
                    }
                    // moving upwards
                    self.going_upwards = true;
                    self.pop_from_stack();
                },
                Spot::Cell(BTreeCell::TableInteriorCell { left_child_page, rowid: _ }) => {
                    self.advance();
                    if !self.go_down(left_child_page) {
                        return Err(StorageError::TreeTooDeep);
                    }
                },
                Spot::Cell(BTreeCell::TableLeafCell { rowid, payload }) => {
                    self.advance();
                    return match read_record(payload.as_slice()) {
                        Ok(record) => Ok(CursorResult::Done((Some(rowid), Some(record)))),
                        Err(e) => Err(e),
                    };
                },
                Spot::Cell(BTreeCell::IndexInteriorCell { left_child_page, payload }) => {
                    if !self.going_upwards {
                        if !self.go_down(left_child_page) {
                            return Err(StorageError::TreeTooDeep);
                        }
                    } else {
                        self.going_upwards = false;
                        self.advance();
                        match judge(&payload, &predicate) {
                            Some(x) => {
                                return x;
                            },
                            None => {},
                        }
                    }
                },
                Spot::Cell(BTreeCell::IndexLeafCell { payload }) => {
                    self.advance();
                    match judge(&payload, &predicate) {
                        Some(x) => {
                            return x;
                        },
                        None => {},
                    }
                },
            }
        }
    }

    /// Finds the first cell of a leaf that is what is looked for.
    fn scan_leaf(&self, contents: &PageContent, key: SeekKey<'_>, op: SeekOp) -> (x: LeafHit)
        requires
            self@.inv(),
            contents@.sized(self@.header.page_size as int),
            contents@.page_type() is Some,
            match search_leaf(self@.pages(), contents@, key@, op, self@.usable(), 0) {
                Hit::At { found, .. } => !(found is Stray),
                Hit::Nowhere => true,
            },
        ensures
            is_hit(x, search_leaf(self@.pages(), contents@, key@, op, self@.usable(), 0), contents@),
    {
        let usable = self.usable_space();
        let count = contents.cell_count();
        let mut cell_idx: usize = 0;
        let ghost whole = search_leaf(self@.pages(), contents@, key@, op, self@.usable(), 0);
        while cell_idx < count
            invariant
                self@.inv(),
                usable == self@.usable(),
                contents@.sized(self@.header.page_size as int),
                contents@.page_type() is Some,
                count == contents@.cell_count(),
                count <= u16::MAX,
                cell_idx <= count,
                whole == search_leaf(self@.pages(), contents@, key@, op, self@.usable(), 0),
                whole == search_leaf(
                    self@.pages(),
                    contents@,
                    key@,
                    op,
                    self@.usable(),
                    cell_idx as int,
                ),
                match whole {
                    Hit::At { found, .. } => !(found is Stray),
                    Hit::Nowhere => true,
                },
            decreases count - cell_idx,
        {
            match contents.cell_get(cell_idx, &self.pager, usable) {
                Fetch::Corrupt => {
                    return LeafHit::Fail { index: cell_idx, error: StorageError::CorruptPage };
                },
                Fetch::Wait(id) => {
                    return LeafHit::Wait { index: cell_idx, id };
                },
                Fetch::Ready(BTreeCell::TableLeafCell { rowid: cell_rowid, payload }) => match key {
                    SeekKey::TableRowId(rowid_key) => {
                        let found = op.is_met(order_row_ids(cell_rowid, rowid_key));
                        if found {
                            return match read_record(payload.as_slice()) {
                                Ok(record) => LeafHit::At {
                                    index: cell_idx + 1,
                                    rowid: Some(cell_rowid),
                                    record,
                                },
                                Err(error) => LeafHit::Fail { index: cell_idx + 1, error },
                            };
                        }
                    },
                    SeekKey::IndexKey(_) => {
                        assert(false);
                    },
                },
                Fetch::Ready(BTreeCell::IndexLeafCell { payload }) => match key {
                    SeekKey::IndexKey(index_key) => {
                        let record = match read_record(payload.as_slice()) {
                            Ok(record) => record,
                            Err(error) => {
                                return LeafHit::Fail { index: cell_idx + 1, error };
                            },
                        };
                        let found = op.is_met(order_records(&record, index_key));
                        if found {
                            let rowid = rowid_of(&record);
                            return LeafHit::At { index: cell_idx + 1, rowid, record };
                        }
                    },
                    SeekKey::TableRowId(_) => {
                        assert(false);
                    },
                },
                Fetch::Ready(_) => {
                    assert(false);
                },
            }
            cell_idx += 1;
        }
        LeafHit::Nowhere { count }
    }

    /// Goes to the first entry that stands to `key` as `op` says, and returns
    /// it with its row id.
    ///
    /// An index has entries on its interior pages too. Where the leaf to which
    /// the key belongs has no entry that is looked for, the first one behind
    /// that leaf is.
    pub fn seek(&mut self, key: SeekKey<'_>, op: SeekOp) -> (r: Result<
        CursorResult<(Option<u64>, Option<OwnedRecord>)>,
        StorageError,
    >)
        requires
            old(self)@.inv(),
            !(old(self)@.search(key@, op).found is Stray),
        ensures
            final(self)@.inv(),
            final(self)@ == old(self)@.walked(old(self)@.search(key@, op)),
            tells_found(old(self)@.search(key@, op).found, r),
            final(self)@.stack.len() > 0,
    {
        let ghost start = self@;
        match self.move_to(key, op) {
            Err(e) => {
                return Err(e);
            },
            Ok(CursorResult::IO) => {
                return Ok(CursorResult::IO);
            },
            Ok(CursorResult::Done(_)) => {},
        }
        proof {
            lemma_landed_leaf(
                start.pages(),
                root_stack(start.root_page),
                key@,
                op,
                start.usable(),
            );
        }
        let hit = match self.pager.contents(self.top_from_stack()) {
            None => {
                assert(false);
                return Ok(CursorResult::IO);
            },
            Some(contents) => {
                assert(loaded(self@.pages(), self@.top().page));
                self.scan_leaf(contents, key, op)
            },
        };
        match hit {
            LeafHit::At { index, rowid, record } => {
                self.set_index(index);
                Ok(CursorResult::Done((rowid, Some(record))))
            },
            LeafHit::Fail { index, error } => {
                self.set_index(index);
                Err(error)
            },
            LeafHit::Wait { index, id } => {
                self.set_index(index);
                proof {
                    lemma_touch_sized(start.pager, id, start.header.page_size as int);
                }
                self.pager.read_page(id);
                Ok(CursorResult::IO)
            },
            LeafHit::Nowhere { count } => {
                self.set_index(count);
                match key {
                    SeekKey::IndexKey(_) => self.get_next_record(Some((key, op))),
                    SeekKey::TableRowId(_) => Ok(CursorResult::Done((None, None))),
                }
            },
        }
    }
}

/// A way down that lands, lands on a leaf in memory.
pub proof fn lemma_landed_leaf(
    pages: Map<usize, PageState>,
    stack: Seq<Frame>,
    key: KeyModel,
    op: SeekOp,
    usable: int,
)
    requires
        descend(pages, stack, key, op, usable).end is Leaf,
    ensures
        ({
            let d = descend(pages, stack, key, op, usable);
            &&& d.stack.len() > 0
            &&& d.stack.len() >= stack.len()
            &&& loaded(pages, d.stack.last().page)
            &&& page_of(pages, d.stack.last().page).page_type() is Some
            &&& leaf_type(page_of(pages, d.stack.last().page).kind())
        }),
    decreases BTCURSOR_MAX_DEPTH + 1 - stack.len(),
{
    let id = stack.last().page;
    let page = page_of(pages, id);
    if !leaf_type(page.kind()) {
        match route(pages, page, key, op, usable, 0) {
            Route::Left { index, child } => {
                lemma_landed_leaf(pages, pushed(at_index(stack, index), child), key, op, usable);
            },
            Route::Rightmost => {
                lemma_landed_leaf(
                    pages,
                    pushed(at_index(stack, page.cell_count()), page.rightmost()),
                    key,
                    op,
                    usable,
                );
            },
            _ => {},
        }
    }
}

} // verus!
