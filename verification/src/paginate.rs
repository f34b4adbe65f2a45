//! The conversation paginator: a step-wise state machine that drives the
//! paged list endpoint through its continuation cursors, one request per
//! page, and accumulates every page's records in order. The caller performs
//! each request and hands the page back; the paginator decides which cursor
//! the next request carries and when the run is complete.

use vstd::prelude::*;

use crate::conversation::Page;
use crate::conversation::RawConversation;

verus! {

/// The fixed upper bound on records per page that every list request asks
/// for.
pub const PAGE_SIZE_LIMIT: u64 = 1000;

/// The records of a run of pages, concatenated in server order.
pub open spec fn concat_channels(pages: Seq<Page>) -> Seq<RawConversation>
    decreases pages.len(),
{
    if pages.len() == 0 {
        Seq::empty()
    } else {
        concat_channels(pages.drop_last()) + pages.last().channels@
    }
}

/// The cursor each request of a run carries: the first request the empty
/// cursor, every later request the cursor the previous page handed back.
pub open spec fn request_trace(pages: Seq<Page>) -> Seq<Seq<char>> {
    Seq::new(
        pages.len(),
        |k: int|
            if k == 0 {
                Seq::<char>::empty()
            } else {
                pages[k - 1].next_cursor@
            },
    )
}

/// A complete run: every page but the last hands back a nonempty cursor,
/// and the last page's cursor is empty.
pub open spec fn complete_run(pages: Seq<Page>) -> bool {
    &&& pages.len() >= 1
    &&& (forall|k: int| 0 <= k < pages.len() - 1 ==> pages[k].next_cursor@.len() > 0)
    &&& pages.last().next_cursor@.len() == 0
}

/// Pagination termination: a complete run of pages is fetched with exactly
/// one request per page; the first request carries the empty cursor, every
/// later request the cursor of the page before it; and as long as the server
/// never hands out the same nonempty cursor twice, no cursor is requested
/// twice.
pub proof fn lemma_pagination_run(pages: Seq<Page>)
    requires
        complete_run(pages),
        forall|i: int, j: int|
            0 <= i < j < pages.len() - 1 ==> pages[i].next_cursor@ != pages[j].next_cursor@,
    ensures
        request_trace(pages).len() == pages.len(),
        request_trace(pages)[0] == Seq::<char>::empty(),
        forall|k: int| 1 <= k < pages.len() ==> request_trace(pages)[k] == pages[k - 1].next_cursor@,
        forall|i: int, j: int|
            0 <= i < j < request_trace(pages).len() ==> request_trace(pages)[i] != request_trace(
                pages,
            )[j],
{
    let trace = request_trace(pages);
    assert forall|i: int, j: int| 0 <= i < j < trace.len() implies trace[i] != trace[j] by {
        if i == 0 {
            assert(pages[j - 1].next_cursor@.len() > 0);
        }
    }
}

/// Drives one pagination run. The state is exactly a fold of the pages
/// absorbed so far; the ghost page history ties each contract to the run.
pub struct Paginator {
    cursor: String,
    finished: bool,
    records: Vec<RawConversation>,
    pages: Ghost<Seq<Page>>,
}

impl Paginator {
    /// The pages absorbed so far, oldest first.
    pub closed spec fn absorbed(&self) -> Seq<Page> {
        self.pages@
    }

    /// Whether the run is complete: some page has handed back the empty
    /// cursor.
    pub closed spec fn spec_done(&self) -> bool {
        self.finished
    }

    /// The cursor the next request is owed: empty before the first request,
    /// afterwards whatever the last page handed back.
    pub closed spec fn spec_cursor(&self) -> Seq<char> {
        self.cursor@
    }

    /// The paginator's state is a fold of its absorbed pages, and no page
    /// before the last can have ended the run.
    pub closed spec fn wf(&self) -> bool {
        &&& self.records@ == concat_channels(self.pages@)
        &&& self.cursor@ == if self.pages@.len() == 0 {
            Seq::<char>::empty()
        } else {
            self.pages@.last().next_cursor@
        }
        &&& self.finished == (self.pages@.len() > 0 && self.pages@.last().next_cursor@.len() == 0)
        &&& (forall|k: int|
            0 <= k < self.pages@.len() - 1 ==> self.pages@[k].next_cursor@.len() > 0)
    }

    /// A finished paginator has absorbed a complete run.
    pub proof fn lemma_done_is_complete(&self)
        requires
            self.wf(),
            self.spec_done(),
        ensures
            complete_run(self.absorbed()),
    {
    }

    /// Starts a run: nothing absorbed, first request owed the empty cursor.
    pub fn new() -> (p: Paginator)
        ensures
            p.wf(),
            p.absorbed() == Seq::<Page>::empty(),
            !p.spec_done(),
    {
        let p = Paginator {
            cursor: String::new(),
            finished: false,
            records: Vec::new(),
            pages: Ghost(Seq::empty()),
        };
        proof {
            assert(p.records@ =~= concat_channels(p.pages@));
        }
        p
    }

    /// The cursor the next request must carry.
    pub fn next_cursor(&self) -> (c: &String)
        ensures
            c@ == self.spec_cursor(),
    {
        &self.cursor
    }

    /// Whether the run is complete and no further request may be made.
    pub fn done(&self) -> (r: bool)
        ensures
            r == self.spec_done(),
    {
        self.finished
    }

    /// Absorbs the page the last requested cursor fetched: appends its
    /// records, takes over its continuation cursor, and completes the run
    /// exactly when that cursor is empty.
    pub fn absorb_page(&mut self, page: Page)
        requires
            old(self).wf(),
            !old(self).spec_done(),
        ensures
            final(self).wf(),
            final(self).absorbed() == old(self).absorbed().push(page),
            final(self).spec_done() == (page.next_cursor@.len() == 0),
            final(self).spec_cursor() == page.next_cursor@,
    {
        let ghost pg = page;
        let Page { mut channels, next_cursor } = page;
        self.finished = next_cursor.as_str().is_empty();
        self.cursor = next_cursor;
        self.records.append(&mut channels);
        proof {
            self.pages@ = self.pages@.push(pg);
            assert(self.pages@.drop_last() =~= old(self).pages@);
            assert(self.pages@.last() == pg);
            assert(self.records@ =~= concat_channels(self.pages@));
            assert forall|k: int| 0 <= k < self.pages@.len() - 1 implies self.pages@[k].next_cursor@.len()
                > 0 by {
                if k == self.pages@.len() - 2 {
                    assert(self.pages@[k] == old(self).pages@.last());
                }
            }
        }
    }

    /// Ends the run and hands out every record of every absorbed page, in
    /// server order.
    pub fn into_records(self) -> (records: Vec<RawConversation>)
        requires
            self.wf(),
        ensures
            records@ == concat_channels(self.absorbed()),
    {
        let Paginator { records, .. } = self;
        records
    }
}

} // verus!
