//! Scanned pages and the ledger of those chosen as document pages, in order.
use vstd::prelude::*;

verus! {

/// One captured frame.
#[derive(Debug)]
pub struct ScanEntry<H> {
    /// Red, green and blue per pixel, row after row, without alpha.
    pub pixels: Vec<u8>,
    pub width: usize,
    pub height: usize,
    /// What the interface draws the frame with.
    pub texture_handle: H,
    /// The page this frame is in the document, counting from zero.
    pub selected_as_page: Option<usize>,
    /// Whether the frame went into a saved document.
    pub saved_to_file: bool,
}

/// The page with another selection.
pub open spec fn with_selection<H>(e: ScanEntry<H>, s: Option<usize>) -> ScanEntry<H> {
    ScanEntry { selected_as_page: s, ..e }
}

/// The page marked as saved.
pub open spec fn with_saved<H>(e: ScanEntry<H>) -> ScanEntry<H> {
    ScanEntry { saved_to_file: true, ..e }
}

/// Whether a ledger and the pages agree: entry `n` of the ledger names a page
/// selected as page `n`, and every selected page is named at its position.
pub open spec fn ledger_matches<H>(ledger: Seq<usize>, pages: Seq<ScanEntry<H>>) -> bool {
    &&& forall|n: int|
        0 <= n < ledger.len() ==> {
            &&& #[trigger] ledger[n] < pages.len()
            &&& pages[ledger[n] as int].selected_as_page == Some(n as usize)
        }
    &&& forall|i: int|
        0 <= i < pages.len() ==> match #[trigger] pages[i].selected_as_page {
            Some(n) => n < ledger.len() && ledger[n as int] == i,
            None => true,
        }
}

/// The positions of the frames that are chosen as pages.
pub open spec fn selected_pages<H>(pages: Seq<ScanEntry<H>>) -> Set<usize> {
    Set::new(|i: usize| i < pages.len() && pages[i as int].selected_as_page is Some)
}

/// Where a ledger and the pages agree, the ledger names each chosen frame
/// once and nothing else, so its length is the number of chosen frames.
pub proof fn lemma_ledger_counts_selected<H>(ledger: Seq<usize>, pages: Seq<ScanEntry<H>>)
    requires
        ledger_matches(ledger, pages),
        ledger.len() <= usize::MAX,
    ensures
        ledger.no_duplicates(),
        ledger.to_set() == selected_pages(pages),
        ledger.len() == selected_pages(pages).len(),
{
    assert forall|a: int, b: int| 0 <= a < ledger.len() && 0 <= b < ledger.len() && a != b implies ledger[a]
        != ledger[b] by {
        assert(pages[ledger[a] as int].selected_as_page == Some(a as usize));
        assert(pages[ledger[b] as int].selected_as_page == Some(b as usize));
    }
    assert forall|x: usize| ledger.to_set().contains(x) <==> selected_pages(pages).contains(x) by {
        if ledger.to_set().contains(x) {
            let n = choose|n: int| 0 <= n < ledger.len() && ledger[n] == x;
            assert(ledger[n] < pages.len());
        }
        if selected_pages(pages).contains(x) {
            let n = pages[x as int].selected_as_page->Some_0;
            assert(ledger[n as int] == x);
            assert(ledger.contains(x));
        }
    }
    assert(ledger.to_set() =~= selected_pages(pages));
    ledger.unique_seq_to_set();
}

/// Choosing the frame at `i` as the next page, where it is not one already.
pub open spec fn select_step<H>(ledger: Seq<usize>, pages: Seq<ScanEntry<H>>, i: usize) -> (
    Seq<usize>,
    Seq<ScanEntry<H>>,
) {
    if i < pages.len() && pages[i as int].selected_as_page is None {
        (
            ledger.push(i),
            pages.update(i as int, with_selection(pages[i as int], Some(ledger.len() as usize))),
        )
    } else {
        (ledger, pages)
    }
}

/// Choosing the frames of `picks` one after another.
pub open spec fn select_all<H>(ledger: Seq<usize>, pages: Seq<ScanEntry<H>>, picks: Seq<usize>) -> (
    Seq<usize>,
    Seq<ScanEntry<H>>,
)
    decreases picks.len(),
{
    if picks.len() == 0 {
        (ledger, pages)
    } else {
        let (l, p) = select_all(ledger, pages, picks.drop_last());
        select_step(l, p, picks.last())
    }
}

/// Choosing `k` distinct frames, none of them a page yet, one after another
/// from an empty ledger: the ledger is those frames in the order chosen, and
/// the frame chosen `n`-th is page `n`.
pub proof fn lemma_selection_order<H>(pages: Seq<ScanEntry<H>>, picks: Seq<usize>)
    requires
        forall|i: int| 0 <= i < pages.len() ==> (#[trigger] pages[i]).selected_as_page is None,
        forall|n: int| 0 <= n < picks.len() ==> #[trigger] picks[n] < pages.len(),
        forall|a: int, b: int| 0 <= a < b < picks.len() ==> picks[a] != picks[b],
    ensures
        select_all(Seq::empty(), pages, picks).0 == picks,
        select_all(Seq::empty(), pages, picks).1.len() == pages.len(),
        forall|n: int|
            0 <= n < picks.len() ==> (#[trigger] select_all(Seq::empty(), pages, picks).1[picks[n] as int]).selected_as_page
                == Some(n as usize),
        forall|i: int|
            0 <= i < pages.len() && !picks.contains(i as usize) ==> (
            #[trigger] select_all(Seq::empty(), pages, picks).1[i]).selected_as_page is None,
    decreases picks.len(),
{
    if picks.len() > 0 {
        let front = picks.drop_last();
        let x = picks.last();
        lemma_selection_order(pages, front);
        let (l, p) = select_all(Seq::<usize>::empty(), pages, front);
        assert(!front.contains(x)) by {
            if front.contains(x) {
                let a = choose|a: int| 0 <= a < front.len() && front[a] == x;
                assert(picks[a] == picks[picks.len() - 1]);
            }
        }
        assert(p[x as int].selected_as_page is None);
        assert(select_all(Seq::<usize>::empty(), pages, picks) == select_step(l, p, x));
        let (l2, p2) = select_step(l, p, x);
        assert(l2 =~= picks);
        assert forall|n: int| 0 <= n < picks.len() implies (#[trigger] p2[picks[n] as int]).selected_as_page
            == Some(n as usize) by {
            if n < front.len() {
                assert(picks[n] == front[n]);
                assert(picks[n] != x);
            }
        }
        assert forall|i: int| 0 <= i < pages.len() && !picks.contains(i as usize) implies (
        #[trigger] p2[i]).selected_as_page is None by {
            assert(i != x as int) by {
                if i == x as int {
                    assert(picks[picks.len() - 1] == x);
                }
            }
            assert(!front.contains(i as usize)) by {
                if front.contains(i as usize) {
                    let a = choose|a: int| 0 <= a < front.len() && front[a] == i as usize;
                    assert(picks[a] == i as usize);
                }
            }
        }
    }
}

/// The pages chosen for a document, in document order.
#[derive(Debug)]
pub struct SelectionLedger {
    pub selected_page_indices: Vec<usize>,
}

impl View for SelectionLedger {
    type V = Seq<usize>;

    open spec fn view(&self) -> Seq<usize> {
        self.selected_page_indices@
    }
}

impl SelectionLedger {
    /// A ledger with no page.
    pub fn new() -> (r: Self)
        ensures
            r@ == Seq::<usize>::empty(),
    {
        SelectionLedger { selected_page_indices: Vec::new() }
    }

    /// The number of pages chosen.
    pub fn pages_selected(&self) -> (r: usize)
        ensures
            r == self@.len(),
    {
        self.selected_page_indices.len()
    }

    /// Chooses the frame at `page_index` as the next page. Returns whether it
    /// did: a frame that is already a page, or beyond the collection, is left
    /// as it is.
    pub fn select_next<H>(&mut self, pages: &mut Vec<ScanEntry<H>>, page_index: usize) -> (r: bool)
        requires
            ledger_matches(old(self)@, old(pages)@),
        ensures
            ledger_matches(final(self)@, final(pages)@),
            r == (page_index < old(pages)@.len()
                && old(pages)@[page_index as int].selected_as_page is None),
            (final(self)@, final(pages)@) == select_step(old(self)@, old(pages)@, page_index),
    {
        if page_index >= pages.len() {
            return false;
        }
        if pages[page_index].selected_as_page.is_some() {
            return false;
        }
        let n = self.selected_page_indices.len();
        pages[page_index].selected_as_page = Some(n);
        self.selected_page_indices.push(page_index);
        proof {
            assert(pages@ =~= old(pages)@.update(
                page_index as int,
                with_selection(old(pages)@[page_index as int], Some(n)),
            ));
        }
        true
    }

    /// Gives up the pages from position `index` on, last first; the frames
    /// they named are no longer pages.
    pub fn clear_selection_from<H>(&mut self, pages: &mut Vec<ScanEntry<H>>, index: usize)
        requires
            ledger_matches(old(self)@, old(pages)@),
        ensures
            ledger_matches(final(self)@, final(pages)@),
            index < old(self)@.len() ==> final(self)@ == old(self)@.take(index as int),
            index >= old(self)@.len() ==> final(self)@ == old(self)@,
            final(pages)@.len() == old(pages)@.len(),
            forall|i: int|
                0 <= i < old(pages)@.len() ==> #[trigger] final(pages)@[i] == match old(
                    pages,
                )@[i].selected_as_page {
                    Some(n) => if n >= index {
                        with_selection(old(pages)@[i], None)
                    } else {
                        old(pages)@[i]
                    },
                    None => old(pages)@[i],
                },
    {
        let ghost start = self@;
        let ghost first = pages@;
        while self.selected_page_indices.len() > index
            invariant
                ledger_matches(self@, pages@),
                pages@.len() == first.len(),
                self@.len() <= start.len(),
                self@ == start.take(self@.len() as int),
                index < start.len() ==> self@.len() >= index,
                index >= start.len() ==> self@ == start,
                ledger_matches(start, first),
                forall|i: int|
                    0 <= i < first.len() ==> #[trigger] pages@[i] == match first[i].selected_as_page {
                        Some(n) => if n >= self@.len() {
                            with_selection(first[i], None)
                        } else {
                            first[i]
                        },
                        None => first[i],
                    },
            decreases self@.len(),
        {
            let last = self.selected_page_indices.len() - 1;
            let k = self.selected_page_indices[last];
            pages[k].selected_as_page = None;
            self.selected_page_indices.pop();
            proof {
                assert(self@ =~= start.take(self@.len() as int));
                assert forall|i: int| 0 <= i < first.len() implies #[trigger] pages@[i] == match first[i].selected_as_page {
                    Some(n) => if n >= self@.len() {
                        with_selection(first[i], None)
                    } else {
                        first[i]
                    },
                    None => first[i],
                } by {
                    if i == k {
                        assert(first[i].selected_as_page == Some(last));
                    }
                }
            }
        }
        proof {
            if index < start.len() {
                assert(self@ =~= start.take(index as int));
            }
        }
    }

    /// Gives up every page.
    pub fn clear_selection<H>(&mut self, pages: &mut Vec<ScanEntry<H>>)
        requires
            ledger_matches(old(self)@, old(pages)@),
        ensures
            ledger_matches(final(self)@, final(pages)@),
            final(self)@ == Seq::<usize>::empty(),
            final(pages)@.len() == old(pages)@.len(),
            forall|i: int|
                0 <= i < old(pages)@.len() ==> #[trigger] final(pages)@[i] == with_selection(
                    old(pages)@[i],
                    None,
                ),
    {
        self.clear_selection_from(pages, 0);
        proof {
            if old(self)@.len() == 0 {
                assert forall|i: int| 0 <= i < old(pages)@.len() implies old(pages)@[i].selected_as_page is None by {
                    if let Some(n) = old(pages)@[i].selected_as_page {
                        assert(n < old(self)@.len());
                    }
                }
            }
            assert(self@ =~= Seq::<usize>::empty());
            assert forall|i: int| 0 <= i < old(pages)@.len() implies #[trigger] pages@[i] == with_selection(
                old(pages)@[i],
                None,
            ) by {
                if old(pages)@[i].selected_as_page is None {
                    assert(old(pages)@[i] == with_selection(old(pages)@[i], None));
                }
            }
        }
    }

    /// Marks every chosen page as saved; the choice stays.
    pub fn mark_selection_saved<H>(&self, pages: &mut Vec<ScanEntry<H>>)
        requires
            ledger_matches(self@, old(pages)@),
        ensures
            ledger_matches(self@, final(pages)@),
            final(pages)@.len() == old(pages)@.len(),
            forall|i: int|
                0 <= i < old(pages)@.len() ==> #[trigger] final(pages)@[i] == if old(
                    pages,
                )@[i].selected_as_page is Some {
                    with_saved(old(pages)@[i])
                } else {
                    old(pages)@[i]
                },
    {
        let ghost first = pages@;
        let len = self.selected_page_indices.len();
        let mut m: usize = len;
        while m > 0
            invariant
                m <= len,
                len == self@.len(),
                pages@.len() == first.len(),
                ledger_matches(self@, first),
                ledger_matches(self@, pages@),
                forall|i: int|
                    0 <= i < first.len() ==> #[trigger] pages@[i] == match first[i].selected_as_page {
                        Some(n) => if n >= m {
                            with_saved(first[i])
                        } else {
                            first[i]
                        },
                        None => first[i],
                    },
            decreases m,
        {
            let n = m - 1;
            let k = self.selected_page_indices[n];
            pages[k].saved_to_file = true;
            proof {
                assert forall|i: int| 0 <= i < first.len() implies #[trigger] pages@[i] == match first[i].selected_as_page {
                    Some(j) => if j >= n {
                        with_saved(first[i])
                    } else {
                        first[i]
                    },
                    None => first[i],
                } by {
                    if i == k {
                        assert(first[i].selected_as_page == Some(n));
                    }
                }
            }
            m = n;
        }
    }

    /// A click on the frame at `page_index`: a frame that is a page rewinds
    /// the choice to before it; any other frame becomes the next page.
    pub fn click_page<H>(&mut self, pages: &mut Vec<ScanEntry<H>>, page_index: usize)
        requires
            ledger_matches(old(self)@, old(pages)@),
        ensures
            ledger_matches(final(self)@, final(pages)@),
            page_index < old(pages)@.len() && old(pages)@[page_index as int].selected_as_page is Some
                ==> {
                let pos = old(pages)@[page_index as int].selected_as_page->Some_0;
                &&& final(self)@ == old(self)@.take(pos as int)
                &&& final(pages)@ == cleared_from(old(pages)@, pos)
            },
            !(page_index < old(pages)@.len() && old(pages)@[page_index as int].selected_as_page is Some)
                ==> (final(self)@, final(pages)@) == select_step(
                old(self)@,
                old(pages)@,
                page_index,
            ),
    {
        if page_index < pages.len() {
            if let Some(pos) = pages[page_index].selected_as_page {
                self.clear_selection_from(pages, pos);
                assert(pages@ =~= cleared_from(old(pages)@, pos));
                return;
            }
        }
        self.select_next(pages, page_index);
    }

    /// After a document is written: the chosen frames are marked saved, and
    /// none stays chosen.
    pub fn finish_save<H>(&mut self, pages: &mut Vec<ScanEntry<H>>)
        requires
            ledger_matches(old(self)@, old(pages)@),
        ensures
            ledger_matches(final(self)@, final(pages)@),
            final(self)@ == Seq::<usize>::empty(),
            final(pages)@.len() == old(pages)@.len(),
            forall|i: int|
                0 <= i < old(pages)@.len() ==> #[trigger] final(pages)@[i] == with_selection(
                    if old(pages)@[i].selected_as_page is Some {
                        with_saved(old(pages)@[i])
                    } else {
                        old(pages)@[i]
                    },
                    None,
                ),
    {
        let ghost first = pages@;
        self.mark_selection_saved(pages);
        let ghost mid = pages@;
        self.clear_selection(pages);
        assert forall|i: int| 0 <= i < first.len() implies #[trigger] pages@[i] == with_selection(
            if first[i].selected_as_page is Some {
                with_saved(first[i])
            } else {
                first[i]
            },
            None,
        ) by {
            assert(pages@[i] == with_selection(mid[i], None));
        }
    }
}

/// The frames after the choice is rewound to `index`: those chosen from
/// position `index` on are no longer pages.
pub open spec fn cleared_from<H>(pages: Seq<ScanEntry<H>>, index: usize) -> Seq<ScanEntry<H>> {
    Seq::new(
        pages.len(),
        |i: int|
            match pages[i].selected_as_page {
                Some(n) => if n >= index {
                    with_selection(pages[i], None)
                } else {
                    pages[i]
                },
                None => pages[i],
            },
    )
}

} // verus!
