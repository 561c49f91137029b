//! The pages that are in memory, and those that have to be read or written.

use std::collections::HashMap;
use std::collections::HashSet;
use vstd::prelude::*;
use crate::bytes::{zeroed, zeros};
use crate::page::{FILE_HEADER_LEN, PageContent, PageModel};

verus! {

/// The numbers of the file header that the tree depends on.
pub struct DatabaseHeader {
    pub page_size: u16,
    /// Bytes at the end of each page that are not used.
    pub unused_space: u8,
    /// The number of pages in the file.
    pub database_size: u32,
}

impl DatabaseHeader {
    /// The bytes of a page that are used.
    pub open spec fn usable(self) -> int {
        self.page_size - self.unused_space
    }
}

/// A page that is in memory or on its way there.
pub struct Page {
    pub dirty: bool,
    /// The page's bytes; none while they are being read.
    pub contents: Option<PageContent>,
}

/// What a [`Page`] stands for.
#[verifier::ext_equal]
pub struct PageState {
    pub dirty: bool,
    pub contents: Option<PageModel>,
}

impl View for Page {
    type V = PageState;

    open spec fn view(&self) -> PageState {
        PageState {
            dirty: self.dirty,
            contents: match self.contents {
                Some(c) => Some(c@),
                None => None,
            },
        }
    }
}

/// Keeps the pages that are in memory.
pub struct Pager {
    pages: HashMap<usize, Page>,
    requests: Vec<usize>,
    dirty_pages: HashSet<usize>,
}

/// What a [`Pager`] stands for.
#[verifier::ext_equal]
pub struct PagerModel {
    /// The pages in memory or on their way there.
    pub pages: Map<usize, PageState>,
    /// The pages that were asked for, in that order.
    pub requests: Seq<usize>,
    /// The pages that have to be written.
    pub dirty: Set<usize>,
}

impl View for Pager {
    type V = PagerModel;

    closed spec fn view(&self) -> PagerModel {
        PagerModel {
            pages: Map::new(
                |id: usize| self.pages@.contains_key(id),
                |id: usize| self.pages@[id]@,
            ),
            requests: self.requests@,
            dirty: self.dirty_pages@,
        }
    }
}

/// Whether page `id` is in memory.
pub open spec fn loaded(pages: Map<usize, PageState>, id: usize) -> bool {
    pages.contains_key(id) && pages[id].contents is Some
}

/// The bytes of page `id`, which is in memory.
pub open spec fn page_of(pages: Map<usize, PageState>, id: usize) -> PageModel {
    pages[id].contents.unwrap()
}

impl PagerModel {
    /// After page `id` was asked for.
    pub open spec fn touch(self, id: usize) -> PagerModel {
        if self.pages.contains_key(id) {
            self
        } else {
            PagerModel {
                pages: self.pages.insert(id, PageState { dirty: false, contents: None }),
                requests: self.requests.push(id),
                ..self
            }
        }
    }

    /// After the bytes of page `id` became `page`.
    pub open spec fn store(self, id: usize, page: PageModel) -> PagerModel {
        PagerModel {
            pages: self.pages.insert(
                id,
                PageState { dirty: self.pages[id].dirty, contents: Some(page) },
            ),
            ..self
        }
    }

    /// After page `id` was marked as changed.
    pub open spec fn mark(self, id: usize) -> PagerModel {
        PagerModel {
            pages: self.pages.insert(
                id,
                PageState { dirty: true, contents: self.pages[id].contents },
            ),
            ..self
        }
    }

    /// After page `id` was put on the list of pages to write.
    pub open spec fn listed(self, id: usize) -> PagerModel {
        PagerModel { dirty: self.dirty.insert(id), ..self }
    }

    /// After `page` was added as the new page `id`.
    pub open spec fn with_new(self, id: usize, page: PageModel) -> PagerModel {
        PagerModel {
            pages: self.pages.insert(id, PageState { dirty: true, contents: Some(page) }),
            dirty: self.dirty.insert(id),
            ..self
        }
    }

    /// After pages `a` and `b` changed places.
    pub open spec fn swapped(self, a: usize, b: usize) -> PagerModel {
        PagerModel { pages: self.pages.insert(a, self.pages[b]).insert(b, self.pages[a]), ..self }
    }

    /// Every page in memory has `usable` bytes at least.
    pub open spec fn holds(self, usable: int) -> bool {
        forall|id: usize| #[trigger]
            loaded(self.pages, id) ==> page_of(self.pages, id).buf.len() >= usable
    }

    /// Every page in memory has the size of a page.
    pub open spec fn sized(self, page_size: int) -> bool {
        forall|id: usize| #[trigger]
            loaded(self.pages, id) ==> page_of(self.pages, id).sized(page_size)
    }
}

/// A page of zeros.
pub open spec fn blank_page(page_size: int) -> PageModel {
    PageModel { offset: 0, buf: zeros(page_size as nat), overflow_cells: Seq::empty() }
}

impl Pager {
    /// A pager that has read no page yet.
    pub fn new() -> (p: Pager)
        ensures
            p@ == (PagerModel {
                pages: Map::empty(),
                requests: Seq::empty(),
                dirty: Set::empty(),
            }),
    {
        let p = Pager { pages: HashMap::new(), requests: Vec::new(), dirty_pages: HashSet::new() };
        assert(p@.pages =~= Map::empty());
        p
    }

    /// Asks for page `id`. A page that is not in memory is locked until
    /// [`Pager::finish_read`] brings its bytes.
    pub fn read_page(&mut self, id: usize)
        ensures
            final(self)@ == old(self)@.touch(id),
    {
        broadcast use vstd::std_specs::hash::group_hash_axioms;

        if !self.pages.contains_key(&id) {
            self.pages.insert(id, Page { dirty: false, contents: None });
            self.requests.push(id);
            assert(self@.pages =~= old(self)@.touch(id).pages);
        } else {
            assert(self@ =~= old(self)@);
        }
    }

    /// The bytes of page `id`; none while it is locked.
    pub fn contents(&self, id: usize) -> (r: Option<&PageContent>)
        ensures
            match r {
                Some(c) => loaded(self@.pages, id) && c@ == page_of(self@.pages, id),
                None => !loaded(self@.pages, id),
            },
    {
        broadcast use vstd::std_specs::hash::group_hash_axioms;

        match self.pages.get(&id) {
            Some(page) => match &page.contents {
                Some(c) => Some(c),
                None => None,
            },
            None => None,
        }
    }

    /// Whether page `id` cannot be used yet.
    pub fn is_locked(&self, id: usize) -> (b: bool)
        ensures
            b == !loaded(self@.pages, id),
    {
        self.contents(id).is_none()
    }

    /// Takes the bytes of page `id` out, to be put back when they are changed.
    pub fn take(&mut self, id: usize) -> (c: PageContent)
        requires
            loaded(old(self)@.pages, id),
        ensures
            c@ == page_of(old(self)@.pages, id),
            final(self)@ == (PagerModel {
                pages: old(self)@.pages.insert(
                    id,
                    PageState { dirty: old(self)@.pages[id].dirty, contents: None },
                ),
                ..old(self)@
            }),
    {
        broadcast use vstd::std_specs::hash::group_hash_axioms;

        let page: Page = match self.pages.remove(&id) {
            Some(page) => page,
            None => Page { dirty: false, contents: None },
        };
        self.pages.insert(id, Page { dirty: page.dirty, contents: None });
        let taken = match page.contents {
            Some(c) => c,
            None => PageContent { offset: 0, buf: Vec::new(), overflow_cells: Vec::new() },
        };
        assert(self@.pages =~= old(self)@.pages.insert(
            id,
            PageState { dirty: old(self)@.pages[id].dirty, contents: None },
        ));
        taken
    }

    /// Makes `c` the bytes of page `id`.
    pub fn put(&mut self, id: usize, c: PageContent)
        requires
            old(self)@.pages.contains_key(id),
        ensures
            final(self)@ == old(self)@.store(id, c@),
    {
        broadcast use vstd::std_specs::hash::group_hash_axioms;

        let dirty: bool = match self.pages.get(&id) {
            Some(page) => page.dirty,
            None => false,
        };
        self.pages.insert(id, Page { dirty, contents: Some(c) });
        assert(self@.pages =~= old(self)@.store(id, c@).pages);
    }

    /// Marks page `id` as changed.
    pub fn set_dirty(&mut self, id: usize)
        requires
            old(self)@.pages.contains_key(id),
        ensures
            final(self)@ == old(self)@.mark(id),
    {
        broadcast use vstd::std_specs::hash::group_hash_axioms;

        let page: Page = match self.pages.remove(&id) {
            Some(page) => page,
            None => Page { dirty: false, contents: None },
        };
        self.pages.insert(id, Page { dirty: true, contents: page.contents });
        assert(self@.pages =~= old(self)@.mark(id).pages);
    }

    /// Puts page `id` on the list of pages to write.
    pub fn add_dirty(&mut self, id: usize)
        ensures
            final(self)@ == old(self)@.listed(id),
    {
        broadcast use vstd::std_specs::hash::group_hash_axioms;

        self.dirty_pages.insert(id);
        assert(self@.pages =~= old(self)@.pages);
    }

    /// Adds a page of zeros behind the last page of the file.
    pub fn allocate_page(&mut self, header: &mut DatabaseHeader) -> (id: usize)
        requires
            old(header).database_size < u32::MAX,
        ensures
            id == old(header).database_size + 1,
            *final(header) == (DatabaseHeader { database_size: id as u32, ..*old(header) }),
            final(self)@ == old(self)@.with_new(id, blank_page(old(header).page_size as int)),
    {
        broadcast use vstd::std_specs::hash::group_hash_axioms;

        header.database_size = header.database_size + 1;
        let id: usize = header.database_size as usize;
        let buf = zeroed(header.page_size as usize);
        let c = PageContent { offset: 0, buf, overflow_cells: Vec::new() };
        assert(c@ =~= blank_page(header.page_size as int));
        self.pages.insert(id, Page { dirty: true, contents: Some(c) });
        self.dirty_pages.insert(id);
        assert(self@.pages =~= old(self)@.with_new(
            id,
            blank_page(old(header).page_size as int),
        ).pages);
        id
    }

    /// Lets pages `a` and `b` change places.
    pub fn swap_pages(&mut self, a: usize, b: usize)
        requires
            old(self)@.pages.contains_key(a),
            old(self)@.pages.contains_key(b),
            a != b,
        ensures
            final(self)@ == old(self)@.swapped(a, b),
    {
        broadcast use vstd::std_specs::hash::group_hash_axioms;

        let pa: Page = match self.pages.remove(&a) {
            Some(page) => page,
            None => Page { dirty: false, contents: None },
        };
        let pb: Page = match self.pages.remove(&b) {
            Some(page) => page,
            None => Page { dirty: false, contents: None },
        };
        self.pages.insert(a, pb);
        self.pages.insert(b, pa);
        assert(self@.pages =~= old(self)@.swapped(a, b).pages);
    }

    /// The pages that were asked for and not handed out yet, oldest first.
    pub fn take_requests(&mut self) -> (r: Vec<usize>)
        ensures
            r@ == old(self)@.requests,
            final(self)@ == (PagerModel { requests: Seq::empty(), ..old(self)@ }),
    {
        let mut r: Vec<usize> = Vec::new();
        r.append(&mut self.requests);
        assert(r@ =~= old(self)@.requests);
        assert(self@.pages =~= old(self)@.pages);
        r
    }

    /// Brings the bytes of page `id`, which unlocks it.
    pub fn finish_read(&mut self, id: usize, buf: Vec<u8>)
        requires
            old(self)@.pages.contains_key(id),
        ensures
            final(self)@ == old(self)@.store(
                id,
                PageModel {
                    offset: if id == 1 {
                        100
                    } else {
                        0
                    },
                    buf: buf@,
                    overflow_cells: Seq::empty(),
                },
            ),
    {
        let offset: usize = if id == 1 {
            FILE_HEADER_LEN
        } else {
            0
        };
        let c = PageContent { offset, buf, overflow_cells: Vec::new() };
        assert(c@.overflow_cells =~= Seq::empty());
        self.put(id, c);
    }
}

} // verus!
