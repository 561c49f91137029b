# btree_cursor

A cursor on the B-trees of an SQLite file: tables, which are kept by row id, and
indexes, which are kept by records. The cursor walks through a tree from one
entry to the next, searches it, and inserts rows into a table, splitting pages
and giving the tree a new root as needed. Pages are asked for by number; a call
that needs a page that is not in memory says so, and is made again once the page
is there.

Everything under `src/` is verified with Verus.

| Modules | What they hold |
| --- | --- |
| `bytes`, `varint`, `record`, `order` | byte formats, records and their order |
| `page`, `pager`, `cell` | a page and its cells, the pages in memory, payloads on overflow pages |
| `cursor`, `descent`, `walk`, `access` | the cursor, the way down a tree, the way through it, what callers use |
| `space`, `fill`, `balance`, `insert` | free space on a page, new pages and cells, splitting, inserting |
| `cells`, `rooms`, `compaction`, `payloads`, `leaves` | what changes of a page do to its cells and rows |
| `settled`, `splits`, `nodes` | splitting a page: how its cells are shared out, and which pages have cells beside them |
| `tables`, `scans`, `sharing`, `divides`, `growth` | the rows of a table: searching, scanning, inserting |
| `fans`, `pairs`, `ways`, `climbs`, `chains` | an insertion that splits one page after the other up the tree |
| `follows` | rows that come in after a leaf was split |
| `indexes`, `lookups`, `ranking` | the entries of an index: scanning, searching, their order |
| `arrivals` | answers and the pages in memory |

The first four rows are the code with its contracts. The others state what holds
of trees as a whole, as proof functions. Among them:

- `growth::insert_with_room`, `insert_with_split` and `insert_with_new_root`: an
  insertion into a table on which no other is going on gives the table one row
  more, in its place, and changes no other. They ask that no cell stands beside
  the leaf and the page above it, and that the leaf takes the cell, or each half
  of its cells has room and the page above takes the divider.
- `chains::insert_with_splits`: the same where the page above has no room for the
  divider and is split in turn, and so on up to the root, which then gets a new
  root above it.
- `growth::insertions_follow`: after that the table takes the next row, unless a
  cell stands beside its leaf. A page that was split still has beside it the cell
  for which it had no room, until it is read again; the laws above say that no
  other page has got one. `follows::rows_follow_on_the_right` and
  `rows_follow_below_a_new_root`: rows behind the divider can so follow.
- `nodes::node_split_shares_entries` and `pairs::split_page_is_paired`: an
  interior page that is split keeps its entries, and the table below it its rows.
- `growth::inserted_row_is_found` and `inserted_row_is_met`: searches and scans
  then meet that row.
- `tables::table_search`, `tables::exact_table_search`, `tables::table_lookup` and
  `lookups::index_search`: what a search finds.
- `scans::scan_gives_all_rows` and `lookups::index_scan_gives_all_entries`: what
  a scan meets. `arrivals::scan_goes_on`: a scan that waits for a page goes on
  unchanged.
- `space::freed_bytes_are_listed` and `compaction::freed_bytes_are_found`: freed
  bytes come into the list of free blocks in their place, and are found again.
