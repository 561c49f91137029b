//! A table's leaf as the sequence of its cells.

use vstd::prelude::*;
use crate::balance::{cell_bytes, cells_on, fill_ok, filled, first_at_least};
use crate::cells::{
    cell_inside, insert_keeps_cells, lemma_cell_bytes_layout, lemma_tidy_room, starts_cell, tidy,
    trimmed,
};
use crate::page::{leaf_type, usable_ok, PageModel, PageType};
use crate::pager::{loaded, page_of, PageState};
use crate::payloads::{cell_uses, kept, lemma_row_at, lemma_row_kept, row_of_cell};
use crate::sharing::{lemma_leaf_cells, sole, sole_rows, uses, within};
use crate::space::{has_room, insert_ok, inserted};
use crate::tables::{leaf_rows, lemma_first_at_least, row_at, rows, table, table_leaf, Row};

verus! {

/// The rows in a sequence of leaf cells.
pub open spec fn cell_rows(
    pages: Map<usize, PageState>,
    cells: Seq<Seq<u8>>,
    usable: int,
) -> Seq<Row> {
    Seq::new(cells.len(), |i: int| row_of_cell(pages, cells[i], usable).unwrap())
}

/// Whether the cells hold rows with ascending row ids above `lo` and up to `hi`.
pub open spec fn good_cells(
    pages: Map<usize, PageState>,
    cells: Seq<Seq<u8>>,
    lo: int,
    hi: int,
    usable: int,
) -> bool {
    &&& forall|i: int|
        0 <= i < cells.len() ==> {
            &&& row_of_cell(pages, #[trigger] cells[i], usable) is Some
            &&& lo < row_of_cell(pages, cells[i], usable).unwrap().rowid <= hi
        }
    &&& forall|i: int, j: int|
        0 <= i < j < cells.len() ==> row_of_cell(
            pages,
            #[trigger] cells[i],
            usable,
        ).unwrap().rowid < row_of_cell(pages, #[trigger] cells[j], usable).unwrap().rowid
}

/// Whether no two of the cells share an overflow page.
pub open spec fn sole_cells(
    pages: Map<usize, PageState>,
    cells: Seq<Seq<u8>>,
    usable: int,
) -> bool {
    forall|i: int, j: int, k: usize|
        0 <= i < j < cells.len() ==> !(#[trigger] cell_uses(pages, cells[i], usable, k)
            && #[trigger] cell_uses(pages, cells[j], usable, k))
}

/// Whether one of the cells uses page `k`.
pub open spec fn cells_use(
    pages: Map<usize, PageState>,
    cells: Seq<Seq<u8>>,
    usable: int,
    k: usize,
) -> bool {
    exists|i: int| 0 <= i < cells.len() && #[trigger] cell_uses(pages, cells[i], usable, k)
}

/// The cells of a table's leaf hold its rows.
pub proof fn lemma_leaf_to_cells(
    pages: Map<usize, PageState>,
    page: PageModel,
    id: usize,
    lo: int,
    hi: int,
    usable: int,
)
    requires
        usable_ok(usable),
        table_leaf(pages, page, lo, hi, usable),
    ensures
        good_cells(pages, cells_on(page, usable), lo, hi, usable),
        leaf_rows(pages, page, usable) == cell_rows(pages, cells_on(page, usable), usable),
        sole_rows(pages, page, id, usable) ==> {
            &&& sole_cells(pages, cells_on(page, usable), usable)
            &&& !cells_use(pages, cells_on(page, usable), usable, id)
        },
        forall|i: int|
            0 <= i < page.cell_count() ==> {
                let c = #[trigger] cells_on(page, usable)[i];
                &&& starts_cell(c, PageType::TableLeaf, usable)
                &&& trimmed(c, PageType::TableLeaf, usable) == c
            },
{
    let cells = cells_on(page, usable);
    lemma_leaf_cells(pages, page, lo, hi, usable);
    assert forall|i: int| 0 <= i < cells.len() implies {
        &&& row_of_cell(pages, #[trigger] cells[i], usable) == row_at(pages, page, i, usable)
        &&& row_at(pages, page, i, usable) is Some
        &&& starts_cell(cells[i], PageType::TableLeaf, usable)
        &&& trimmed(cells[i], PageType::TableLeaf, usable) == cells[i]
    } by {
        assert(page.head(i, usable) is Some);
        assert(row_at(pages, page, i, usable) is Some);
        lemma_cell_bytes_layout(page, i, usable);
        assert(trimmed(cells[i], PageType::TableLeaf, usable) =~= cells[i]);
    }
    assert forall|i: int, j: int| 0 <= i < j < cells.len() implies row_of_cell(
        pages,
        #[trigger] cells[i],
        usable,
    ).unwrap().rowid < row_of_cell(pages, #[trigger] cells[j], usable).unwrap().rowid by {
        assert(row_at(pages, page, i, usable).unwrap().rowid < row_at(
            pages,
            page,
            j,
            usable,
        ).unwrap().rowid);
    }
    assert(leaf_rows(pages, page, usable) =~= cell_rows(pages, cells, usable));
    if sole_rows(pages, page, id, usable) {
        assert forall|i: int, j: int, k: usize| 0 <= i < j < cells.len() implies !(
        #[trigger] cell_uses(pages, cells[i], usable, k) && #[trigger] cell_uses(
            pages,
            cells[j],
            usable,
            k,
        )) by {
            assert(cells[i] == cell_bytes(page, i, usable) && cells[j] == cell_bytes(
                page,
                j,
                usable,
            ));
        }
        assert forall|i: int| 0 <= i < cells.len() implies !#[trigger] cell_uses(
            pages,
            cells[i],
            usable,
            id,
        ) by {
            assert(cells[i] == cell_bytes(page, i, usable));
        }
    }
}

/// A leaf page whose cells hold rows in order is a table's leaf.
pub proof fn lemma_cells_to_leaf(
    pages: Map<usize, PageState>,
    page: PageModel,
    id: usize,
    lo: int,
    hi: int,
    usable: int,
)
    requires
        usable_ok(usable),
        forall|i: int| 0 <= i < page.cell_count() ==> (#[trigger] page.head(i, usable)) is Some,
        page.page_type() == Some(PageType::TableLeaf),
        good_cells(pages, cells_on(page, usable), lo, hi, usable),
    ensures
        table_leaf(pages, page, lo, hi, usable),
        leaf_rows(pages, page, usable) == cell_rows(pages, cells_on(page, usable), usable),
        sole_cells(pages, cells_on(page, usable), usable) && !cells_use(
            pages,
            cells_on(page, usable),
            usable,
            id,
        ) ==> sole_rows(pages, page, id, usable),
{
    let cells = cells_on(page, usable);
    assert forall|i: int| 0 <= i < page.cell_count() implies #[trigger] row_at(
        pages,
        page,
        i,
        usable,
    ) == row_of_cell(pages, cells[i], usable) by {
        assert(page.head(i, usable) is Some);
        lemma_row_at(pages, page, i, usable);
    }
    assert forall|i: int| 0 <= i < page.cell_count() implies {
        &&& (#[trigger] row_at(pages, page, i, usable)) is Some
        &&& lo < row_at(pages, page, i, usable).unwrap().rowid <= hi
    } by {
        assert(row_of_cell(pages, cells[i], usable) is Some);
    }
    assert forall|i: int, j: int| 0 <= i < j < page.cell_count() implies (#[trigger] row_at(
        pages,
        page,
        i,
        usable,
    )).unwrap().rowid < (#[trigger] row_at(pages, page, j, usable)).unwrap().rowid by {
        assert(row_of_cell(pages, cells[i], usable).unwrap().rowid < row_of_cell(
            pages,
            cells[j],
            usable,
        ).unwrap().rowid);
    }
    assert(leaf_rows(pages, page, usable) =~= cell_rows(pages, cells, usable));
    if sole_cells(pages, cells, usable) && !cells_use(pages, cells, usable, id) {
        assert forall|i: int| 0 <= i < page.cell_count() implies !#[trigger] cell_uses(
            pages,
            cell_bytes(page, i, usable),
            usable,
            id,
        ) by {
            assert(cells[i] == cell_bytes(page, i, usable));
        }
        assert forall|i: int, j: int, k: usize| 0 <= i < j < page.cell_count() implies !(
        #[trigger] cell_uses(pages, cell_bytes(page, i, usable), usable, k)
            && #[trigger] cell_uses(pages, cell_bytes(page, j, usable), usable, k)) by {
            assert(cells[i] == cell_bytes(page, i, usable) && cells[j] == cell_bytes(
                page,
                j,
                usable,
            ));
        }
    }
}

/// A leaf uses its own page and those that its cells use.
pub proof fn lemma_leaf_uses(pages: Map<usize, PageState>, id: usize, usable: int, k: usize)
    ensures
        uses(pages, id, 0, usable, k) == (k == id || cells_use(
            pages,
            cells_on(page_of(pages, id), usable),
            usable,
            k,
        )),
{
    let page = page_of(pages, id);
    let cells = cells_on(page, usable);
    if cells_use(pages, cells, usable, k) {
        let i = choose|i: int|
            0 <= i < cells.len() && #[trigger] cell_uses(pages, cells[i], usable, k);
        assert(cell_uses(pages, cell_bytes(page, i, usable), usable, k));
    }
    if uses(pages, id, 0, usable, k) && k != id {
        let i = choose|i: int|
            0 <= i < page.cell_count() && #[trigger] cell_uses(
                pages,
                cell_bytes(page, i, usable),
                usable,
                k,
            );
        assert(cell_uses(pages, cells[i], usable, k));
    }
}

/// Cells that use none of the changed pages keep their rows.
pub proof fn lemma_cells_kept(
    pages: Map<usize, PageState>,
    pages2: Map<usize, PageState>,
    x: Set<usize>,
    cells: Seq<Seq<u8>>,
    lo: int,
    hi: int,
    usable: int,
)
    requires
        kept(pages, pages2, x),
        good_cells(pages, cells, lo, hi, usable),
        forall|k: usize| #[trigger] x.contains(k) ==> !cells_use(pages, cells, usable, k),
    ensures
        good_cells(pages2, cells, lo, hi, usable),
        cell_rows(pages2, cells, usable) == cell_rows(pages, cells, usable),
        forall|i: int, k: usize|
            0 <= i < cells.len() ==> #[trigger] cell_uses(pages2, cells[i], usable, k)
                == cell_uses(pages, cells[i], usable, k),
        sole_cells(pages, cells, usable) ==> sole_cells(pages2, cells, usable),
{
    assert forall|i: int| 0 <= i < cells.len() implies {
        &&& row_of_cell(pages2, #[trigger] cells[i], usable) == row_of_cell(
            pages,
            cells[i],
            usable,
        )
        &&& forall|k: usize| #[trigger]
            cell_uses(pages2, cells[i], usable, k) == cell_uses(pages, cells[i], usable, k)
    } by {
        assert forall|k: usize| #[trigger] x.contains(k) implies !cell_uses(
            pages,
            cells[i],
            usable,
            k,
        ) by {
            assert(!cells_use(pages, cells, usable, k));
        }
        lemma_row_kept(pages, pages2, x, cells[i], usable);
    }
    assert(cell_rows(pages2, cells, usable) =~= cell_rows(pages, cells, usable));
}

/// Cells with one more, which holds a row that belongs between them.
pub proof fn lemma_cell_added(
    pages: Map<usize, PageState>,
    cells: Seq<Seq<u8>>,
    cell: Seq<u8>,
    place: int,
    row: Row,
    lo: int,
    hi: int,
    usable: int,
)
    requires
        good_cells(pages, cells, lo, hi, usable),
        0 <= place <= cells.len(),
        row_of_cell(pages, cell, usable) == Some(row),
        lo < row.rowid <= hi,
        forall|j: int|
            0 <= j < place ==> (#[trigger] cell_rows(pages, cells, usable)[j]).rowid < row.rowid,
        forall|j: int|
            place <= j < cells.len() ==> (#[trigger] cell_rows(pages, cells, usable)[j]).rowid
                > row.rowid,
    ensures
        good_cells(pages, cells.insert(place, cell), lo, hi, usable),
        cell_rows(pages, cells.insert(place, cell), usable) == cell_rows(
            pages,
            cells,
            usable,
        ).insert(place, row),
{
    let all = cells.insert(place, cell);
    let r = cell_rows(pages, cells, usable);
    let s = r.insert(place, row);
    assert forall|i: int| 0 <= i < all.len() implies {
        &&& row_of_cell(pages, #[trigger] all[i], usable) == Some(s[i])
        &&& lo < s[i].rowid <= hi
    } by {
        if i < place {
            assert(all[i] == cells[i] && s[i] == r[i]);
        } else if i > place {
            assert(all[i] == cells[i - 1] && s[i] == r[i - 1]);
        }
    }
    assert forall|i: int, j: int| 0 <= i < j < all.len() implies row_of_cell(
        pages,
        #[trigger] all[i],
        usable,
    ).unwrap().rowid < row_of_cell(pages, #[trigger] all[j], usable).unwrap().rowid by {
        let a = if i < place {
            i
        } else {
            i - 1
        };
        let b = if j < place {
            j
        } else {
            j - 1
        };
        if i == place {
            assert(all[j] == cells[b] && s[j] == r[b]);
        } else if j == place {
            assert(all[i] == cells[a] && s[i] == r[a]);
        } else {
            assert(all[i] == cells[a] && all[j] == cells[b]);
        }
    }
    assert(cell_rows(pages, all, usable) =~= s);
}

/// Cells with one more, which uses other pages than they do.
pub proof fn lemma_cell_added_sole(
    pages: Map<usize, PageState>,
    cells: Seq<Seq<u8>>,
    cell: Seq<u8>,
    place: int,
    usable: int,
)
    requires
        0 <= place <= cells.len(),
        sole_cells(pages, cells, usable),
        forall|k: usize| #[trigger]
            cell_uses(pages, cell, usable, k) ==> !cells_use(pages, cells, usable, k),
    ensures
        sole_cells(pages, cells.insert(place, cell), usable),
        forall|k: usize| #[trigger]
            cells_use(pages, cells.insert(place, cell), usable, k) ==> cells_use(
                pages,
                cells,
                usable,
                k,
            ) || cell_uses(pages, cell, usable, k),
{
    let all = cells.insert(place, cell);
    assert forall|i: int, k: usize| 0 <= i < all.len() && #[trigger] cell_uses(
        pages,
        all[i],
        usable,
        k,
    ) implies if i == place {
        cell_uses(pages, cell, usable, k) && !cells_use(pages, cells, usable, k)
    } else {
        cells_use(pages, cells, usable, k)
    } by {
        if i < place {
            assert(cell_uses(pages, cells[i], usable, k));
        } else if i > place {
            assert(cell_uses(pages, cells[i - 1], usable, k));
        } else {
            assert(all[i] == cell);
        }
    }
    assert forall|i: int, j: int, k: usize| 0 <= i < j < all.len() implies !(#[trigger] cell_uses(
        pages,
        all[i],
        usable,
        k,
    ) && #[trigger] cell_uses(pages, all[j], usable, k)) by {
        let a = if i < place {
            i
        } else {
            i - 1
        };
        let b = if j < place {
            j
        } else {
            j - 1
        };
        if i != place && j != place {
            assert(all[i] == cells[a] && all[j] == cells[b]);
            assert(!(cell_uses(pages, cells[a], usable, k) && cell_uses(
                pages,
                cells[b],
                usable,
                k,
            )));
        }
    }
}

/// A stretch of cells that hold rows in order.
pub proof fn lemma_cells_part(
    pages: Map<usize, PageState>,
    cells: Seq<Seq<u8>>,
    a: int,
    b: int,
    lo: int,
    hi: int,
    usable: int,
)
    requires
        good_cells(pages, cells, lo, hi, usable),
        sole_cells(pages, cells, usable),
        0 <= a <= b <= cells.len(),
    ensures
        good_cells(
            pages,
            cells.subrange(a, b),
            if a == 0 {
                lo
            } else {
                row_of_cell(pages, cells[a - 1], usable).unwrap().rowid
            },
            if b == cells.len() {
                hi
            } else {
                row_of_cell(pages, cells[b - 1], usable).unwrap().rowid
            },
            usable,
        ),
        sole_cells(pages, cells.subrange(a, b), usable),
        cell_rows(pages, cells.subrange(a, b), usable) == cell_rows(
            pages,
            cells,
            usable,
        ).subrange(a, b),
        forall|k: usize| #[trigger]
            cells_use(pages, cells.subrange(a, b), usable, k) ==> cells_use(
                pages,
                cells,
                usable,
                k,
            ),
{
    let part = cells.subrange(a, b);
    assert forall|i: int| 0 <= i < part.len() implies #[trigger] part[i] == cells[a + i] by {}
    assert forall|i: int| 0 <= i < part.len() implies {
        &&& row_of_cell(pages, #[trigger] part[i], usable) is Some
        &&& a > 0 ==> row_of_cell(pages, cells[a - 1], usable).unwrap().rowid < row_of_cell(
            pages,
            part[i],
            usable,
        ).unwrap().rowid
        &&& row_of_cell(pages, part[i], usable).unwrap().rowid <= row_of_cell(
            pages,
            cells[b - 1],
            usable,
        ).unwrap().rowid
    } by {
        assert(part[i] == cells[a + i]);
        if a + i < b - 1 {
            assert(row_of_cell(pages, cells[a + i], usable).unwrap().rowid < row_of_cell(
                pages,
                cells[b - 1],
                usable,
            ).unwrap().rowid);
        }
    }
    assert(cell_rows(pages, part, usable) =~= cell_rows(pages, cells, usable).subrange(a, b));
    assert forall|i: int, j: int, k: usize| 0 <= i < j < part.len() implies !(#[trigger] cell_uses(
        pages,
        part[i],
        usable,
        k,
    ) && #[trigger] cell_uses(pages, part[j], usable, k)) by {
        assert(part[i] == cells[a + i] && part[j] == cells[a + j]);
    }
    assert forall|k: usize| #[trigger] cells_use(pages, part, usable, k) implies cells_use(
        pages,
        cells,
        usable,
        k,
    ) by {
        let i = choose|i: int|
            0 <= i < part.len() && #[trigger] cell_uses(pages, part[i], usable, k);
        assert(cell_uses(pages, cells[a + i], usable, k));
    }
}

// ---------------------------------------------------------------------------
// Filling a page
// ---------------------------------------------------------------------------

/// The bytes that the cells take on a page, their pointers too.
pub open spec fn room_for(cells: Seq<Seq<u8>>) -> int
    decreases cells.len(),
{
    if cells.len() == 0 {
        0
    } else {
        room_for(cells.drop_last()) + cells.last().len() + 2
    }
}

/// The cells, each without what follows its payload.
pub open spec fn all_trimmed(cells: Seq<Seq<u8>>, t: PageType, usable: int) -> Seq<Seq<u8>> {
    Seq::new(cells.len(), |i: int| trimmed(cells[i], t, usable))
}

/// A tidy page without cells takes those for which it has room, in their order.
pub proof fn fill_keeps_cells(page: PageModel, cells: Seq<Seq<u8>>, usable: int)
    requires
        usable_ok(usable),
        tidy(page, usable),
        page.cell_count() == 0,
        12 + room_for(cells) <= page.cell_content_area(),
        forall|i: int|
            0 <= i < cells.len() ==> starts_cell(#[trigger] cells[i], page.kind(), usable),
    ensures
        fill_ok(page, cells, usable),
        ({
            let after = filled(page, cells, usable);
            &&& tidy(after, usable)
            &&& after.page_type() == page.page_type()
            &&& after.buf.len() == page.buf.len()
            &&& after.overflow_cells == page.overflow_cells
            &&& !leaf_type(page.kind()) ==> after.rightmost() == page.rightmost()
            &&& after.cell_content_area() == page.cell_content_area() - room_for(cells) + 2
                * cells.len()
            &&& cells_on(after, usable) == all_trimmed(cells, page.kind(), usable)
        }),
    decreases cells.len(),
{
    if cells.len() == 0 {
        assert(cells_on(page, usable) =~= all_trimmed(cells, page.kind(), usable));
    } else {
        let less = cells.drop_last();
        assert forall|i: int| 0 <= i < less.len() implies starts_cell(
            #[trigger] less[i],
            page.kind(),
            usable,
        ) by {
            assert(less[i] == cells[i]);
        }
        fill_keeps_cells(page, less, usable);
        let before = filled(page, less, usable);
        assert(before.cell_count() == cells_on(before, usable).len());
        assert(starts_cell(cells.last(), before.kind(), usable));
        assert(has_room(before, cells.last())) by {
            lemma_tidy_room(before, cells.last(), usable);
        }
        lemma_fill_one(before, cells, usable);
    }
}

/// One more cell on a page that holds those before it.
proof fn lemma_fill_one(before: PageModel, cells: Seq<Seq<u8>>, usable: int)
    requires
        usable_ok(usable),
        cells.len() > 0,
        tidy(before, usable),
        cells_on(before, usable) == all_trimmed(cells.drop_last(), before.kind(), usable),
        starts_cell(cells.last(), before.kind(), usable),
        has_room(before, cells.last()),
    ensures
        insert_ok(before, cells.last(), cells.len() - 1, usable),
        ({
            let after = inserted(before, cells.last(), cells.len() - 1, usable);
            &&& tidy(after, usable)
            &&& after.page_type() == before.page_type()
            &&& after.buf.len() == before.buf.len()
            &&& after.overflow_cells == before.overflow_cells
            &&& !leaf_type(before.kind()) ==> after.rightmost() == before.rightmost()
            &&& after.cell_content_area() == before.cell_content_area() - cells.last().len()
            &&& cells_on(after, usable) == all_trimmed(cells, before.kind(), usable)
        }),
{
    assert(before.cell_count() == cells_on(before, usable).len());
    insert_keeps_cells(before, cells.last(), cells.len() - 1, usable);
    let after = inserted(before, cells.last(), cells.len() - 1, usable);
    let want = all_trimmed(cells, before.kind(), usable);
    assert forall|i: int| 0 <= i < cells.len() implies #[trigger] cells_on(after, usable)[i]
        == want[i] by {
        if i < cells.len() - 1 {
            assert(cells_on(after, usable)[i] == cells_on(before, usable)[i]);
            assert(cells.drop_last()[i] == cells[i]);
        }
    }
    assert(cells_on(after, usable) =~= want);
}

// ---------------------------------------------------------------------------
// Two leaves that share cells
// ---------------------------------------------------------------------------

/// Whether pages `left` and `right` are leaves that hold the first `half` of
/// the cells and the others.
pub open spec fn share(
    pages: Map<usize, PageState>,
    cells: Seq<Seq<u8>>,
    half: int,
    left: usize,
    right: usize,
    usable: int,
) -> bool {
    let a = page_of(pages, left);
    let b = page_of(pages, right);
    &&& left != right
    &&& 1 <= half < cells.len()
    &&& loaded(pages, left)
    &&& loaded(pages, right)
    &&& tidy(a, usable)
    &&& tidy(b, usable)
    &&& a.page_type() == Some(PageType::TableLeaf)
    &&& b.page_type() == Some(PageType::TableLeaf)
    &&& cells_on(a, usable) == cells.subrange(0, half)
    &&& cells_on(b, usable) == cells.subrange(half, cells.len() as int)
}

/// The cells of a tidy page are laid out.
proof fn lemma_tidy_heads(page: PageModel, usable: int)
    requires
        tidy(page, usable),
    ensures
        forall|i: int| 0 <= i < page.cell_count() ==> (#[trigger] page.head(i, usable)) is Some,
{
    assert forall|i: int| 0 <= i < page.cell_count() implies (#[trigger] page.head(
        i,
        usable,
    )) is Some by {
        assert(cell_inside(page, i, usable));
    }
}

/// Two leaves that share cells with rows in order are tables, one behind the
/// other, with the rows of the cells.
pub proof fn shared_leaves(
    pages: Map<usize, PageState>,
    cells: Seq<Seq<u8>>,
    half: int,
    left: usize,
    right: usize,
    lo: int,
    hi: int,
    usable: int,
)
    requires
        usable_ok(usable),
        share(pages, cells, half, left, right, usable),
        good_cells(pages, cells, lo, hi, usable),
        sole_cells(pages, cells, usable),
        !cells_use(pages, cells, usable, left),
        !cells_use(pages, cells, usable, right),
    ensures
        ({
            let key = row_of_cell(pages, cells[half - 1], usable).unwrap().rowid;
            &&& lo < key <= hi
            &&& table(pages, left, 0, lo, key, usable)
            &&& table(pages, right, 0, key, hi, usable)
            &&& sole(pages, left, 0, usable)
            &&& sole(pages, right, 0, usable)
            &&& rows(pages, left, 0, usable) + rows(pages, right, 0, usable) == cell_rows(
                pages,
                cells,
                usable,
            )
            &&& forall|k: usize| #[trigger]
                uses(pages, left, 0, usable, k) ==> k == left || cells_use(
                    pages,
                    cells,
                    usable,
                    k,
                )
            &&& forall|k: usize| #[trigger]
                uses(pages, right, 0, usable, k) ==> k == right || cells_use(
                    pages,
                    cells,
                    usable,
                    k,
                )
            &&& forall|k: usize| #[trigger]
                uses(pages, left, 0, usable, k) ==> !uses(pages, right, 0, usable, k)
        }),
{
    let n = cells.len() as int;
    let key = row_of_cell(pages, cells[half - 1], usable).unwrap().rowid;
    lemma_cells_part(pages, cells, 0, half, lo, hi, usable);
    lemma_cells_part(pages, cells, half, n, lo, hi, usable);
    lemma_tidy_heads(page_of(pages, left), usable);
    lemma_tidy_heads(page_of(pages, right), usable);
    lemma_cells_to_leaf(pages, page_of(pages, left), left, lo, key, usable);
    lemma_cells_to_leaf(pages, page_of(pages, right), right, key, hi, usable);
    let r = cell_rows(pages, cells, usable);
    assert(r.subrange(0, half) + r.subrange(half, n) =~= r);
    assert forall|k: usize| #[trigger] uses(pages, left, 0, usable, k) implies k == left
        || cells_use(pages, cells, usable, k) by {
        lemma_leaf_uses(pages, left, usable, k);
    }
    assert forall|k: usize| #[trigger] uses(pages, right, 0, usable, k) implies k == right
        || cells_use(pages, cells, usable, k) by {
        lemma_leaf_uses(pages, right, usable, k);
    }
    assert forall|k: usize| #[trigger] uses(pages, left, 0, usable, k) implies !uses(
        pages,
        right,
        0,
        usable,
        k,
    ) by {
        lemma_leaf_uses(pages, left, usable, k);
        lemma_leaf_uses(pages, right, usable, k);
        lemma_parts_apart(pages, cells, half, usable, k);
    }
}

/// No page is used by cells of both parts.
proof fn lemma_parts_apart(
    pages: Map<usize, PageState>,
    cells: Seq<Seq<u8>>,
    half: int,
    usable: int,
    k: usize,
)
    requires
        0 <= half <= cells.len(),
        sole_cells(pages, cells, usable),
    ensures
        !(cells_use(pages, cells.subrange(0, half), usable, k) && cells_use(
            pages,
            cells.subrange(half, cells.len() as int),
            usable,
            k,
        )),
{
    let a = cells.subrange(0, half);
    let b = cells.subrange(half, cells.len() as int);
    if cells_use(pages, a, usable, k) && cells_use(pages, b, usable, k) {
        let i = choose|i: int| 0 <= i < a.len() && #[trigger] cell_uses(pages, a[i], usable, k);
        let j = choose|j: int| 0 <= j < b.len() && #[trigger] cell_uses(pages, b[j], usable, k);
        assert(a[i] == cells[i] && b[j] == cells[half + j]);
        assert(!(cell_uses(pages, cells[i], usable, k) && cell_uses(
            pages,
            cells[half + j],
            usable,
            k,
        )));
    }
}

/// The cells of a leaf with one more, after other pages changed, are good ones.
pub proof fn cells_gain(
    pages: Map<usize, PageState>,
    pages2: Map<usize, PageState>,
    x: Set<usize>,
    id: usize,
    cell: Seq<u8>,
    place: int,
    row: Row,
    lo: int,
    hi: int,
    usable: int,
    size: int,
    size2: int,
)
    requires
        usable_ok(usable),
        table(pages, id, 0, lo, hi, usable),
        sole(pages, id, 0, usable),
        within(pages, id, 0, usable, size),
        kept(pages, pages2, x),
        forall|k: usize| #[trigger]
            x.contains(k) && k != id ==> !uses(pages, id, 0, usable, k),
        first_at_least(page_of(pages, id), row.rowid, usable, 0) == Some(place),
        row_of_cell(pages2, cell, usable) == Some(row),
        forall|j: usize| #[trigger] cell_uses(pages2, cell, usable, j) ==> size < j <= size2,
        lo < row.rowid <= hi,
        forall|i: int|
            0 <= i < leaf_rows(pages, page_of(pages, id), usable).len() ==> (
            #[trigger] leaf_rows(pages, page_of(pages, id), usable)[i]).rowid != row.rowid,
    ensures
        0 <= place <= rows(pages, id, 0, usable).len(),
        ({
            let all = cells_on(page_of(pages, id), usable).insert(place, cell);
            &&& good_cells(pages2, all, lo, hi, usable)
            &&& sole_cells(pages2, all, usable)
            &&& cell_rows(pages2, all, usable) == rows(pages, id, 0, usable).insert(place, row)
            &&& forall|k: usize| #[trigger]
                cells_use(pages2, all, usable, k) ==> {
                    ||| uses(pages, id, 0, usable, k) && k != id && k <= size
                    ||| size < k <= size2
                }
        }),
{
    let page = page_of(pages, id);
    let cells = cells_on(page, usable);
    lemma_leaf_to_cells(pages, page, id, lo, hi, usable);
    lemma_first_at_least(pages, page, lo, hi, row.rowid, usable, 0);
    assert(uses(pages, id, 0, usable, id));
    assert forall|k: usize| #[trigger] x.contains(k) implies !cells_use(
        pages,
        cells,
        usable,
        k,
    ) by {
        lemma_leaf_uses(pages, id, usable, k);
    }
    lemma_cells_kept(pages, pages2, x, cells, lo, hi, usable);
    let r = leaf_rows(pages, page, usable);
    assert forall|j: int| 0 <= j < place implies (#[trigger] cell_rows(
        pages2,
        cells,
        usable,
    )[j]).rowid < row.rowid by {
        assert(r[j].rowid < row.rowid);
    }
    assert forall|j: int| place <= j < cells.len() implies (#[trigger] cell_rows(
        pages2,
        cells,
        usable,
    )[j]).rowid > row.rowid by {
        assert(r[j].rowid >= row.rowid);
    }
    lemma_cell_added(pages2, cells, cell, place, row, lo, hi, usable);
    assert forall|k: usize| #[trigger] cells_use(pages2, cells, usable, k) implies uses(
        pages,
        id,
        0,
        usable,
        k,
    ) && k <= size && k != id by {
        let i = choose|i: int|
            0 <= i < cells.len() && #[trigger] cell_uses(pages2, cells[i], usable, k);
        assert(cell_uses(pages, cells[i], usable, k));
        lemma_leaf_uses(pages, id, usable, k);
    }
    lemma_cell_added_sole(pages2, cells, cell, place, usable);
}

} // verus!
