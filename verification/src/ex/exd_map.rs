//! The pages of one sheet in every language that could be loaded.
use vstd::prelude::*;

verus! {

/// A language of the game's data.
#[derive(Clone, Copy, Debug, PartialEq, Eq, Structural, Hash)]
pub enum Language {
    Japanese,
    English,
    Deutsch,
    French,
    ChineseSimplified,
    ChineseTraditional,
    Korean,
}

/// A page of a sheet: the rows with ids from `start` on, `count` of them.
#[derive(Clone, Copy, Debug, PartialEq, Eq, Structural)]
pub struct ExhPage {
    pub start: u32,
    pub count: u32,
}

/// The rows of one page: each row's id and its bytes, in file order.
pub struct ExData {
    rows: Vec<(u32, Vec<u8>)>,
}

/// The rows of a page, as ids and bytes.
pub type RowsView = Seq<(u32, Seq<u8>)>;

impl View for ExData {
    type V = RowsView;

    closed spec fn view(&self) -> RowsView {
        self.rows@.map_values(|r: (u32, Vec<u8>)| (r.0, r.1@))
    }
}

/// The position of the first row with id `index`, from position `i` on.
pub open spec fn first_row(rows: RowsView, index: u32, i: int) -> Option<int>
    decreases rows.len() - i,
{
    if i < 0 || i >= rows.len() {
        None
    } else if rows[i].0 == index {
        Some(i)
    } else {
        first_row(rows, index, i + 1)
    }
}

/// The bytes of the first row with id `index`.
pub open spec fn row_bytes(rows: RowsView, index: u32) -> Option<Seq<u8>> {
    match first_row(rows, index, 0) {
        Some(i) => Some(rows[i].1),
        None => None,
    }
}

/// The bytes of row `index` are those of the first row with that id; a
/// page without such a row gives none.
pub proof fn lemma_row_bytes(rows: RowsView, index: u32)
    ensures
        row_bytes(rows, index) matches Some(b) ==> exists|i: int|
            0 <= i < rows.len() && #[trigger] rows[i].0 == index && rows[i].1 == b && forall|k: int|
                0 <= k < i ==> (#[trigger] rows[k]).0 != index,
        row_bytes(rows, index) is None ==> forall|k: int| 0 <= k < rows.len() ==> (#[trigger] rows[k]).0 != index,
{
    lemma_first_row(rows, index, 0);
}

proof fn lemma_first_row(rows: RowsView, index: u32, i: int)
    requires
        0 <= i,
    ensures
        first_row(rows, index, i) matches Some(j) ==> i <= j < rows.len() && rows[j].0 == index && forall|k: int|
            i <= k < j ==> (#[trigger] rows[k]).0 != index,
        first_row(rows, index, i) is None ==> forall|k: int| i <= k < rows.len() ==> (#[trigger] rows[k]).0 != index,
    decreases rows.len() - i,
{
    if i < rows.len() {
        lemma_first_row(rows, index, i + 1);
    }
}

impl ExData {
    /// A page with the given rows.
    pub fn new(rows: Vec<(u32, Vec<u8>)>) -> (r: Self)
        ensures
            r@ == rows@.map_values(|r: (u32, Vec<u8>)| (r.0, r.1@)),
    {
        ExData { rows }
    }

    /// The bytes of the row with id `index`, if the page has one.
    pub fn index(&self, index: u32) -> (r: Option<&[u8]>)
        ensures
            match row_bytes(self@, index) {
                Some(b) => r matches Some(x) && x@ == b,
                None => r is None,
            },
    {
        let ghost rows = self@;
        let mut i: usize = 0;
        while i < self.rows.len()
            invariant
                rows == self@,
                i <= rows.len(),
                first_row(rows, index, 0) == first_row(rows, index, i as int),
            decreases rows.len() - i,
        {
            if self.rows[i].0 == index {
                return Some(self.rows[i].1.as_slice());
            }
            i = i + 1;
        }
        None
    }

    /// Every row: its id and its bytes, in file order.
    pub fn all(&self) -> (r: Vec<(u32, &[u8])>)
        ensures
            view_rows(r@) == self@,
    {
        let mut out: Vec<(u32, &[u8])> = Vec::new();
        let mut i: usize = 0;
        while i < self.rows.len()
            invariant
                i <= self@.len(),
                view_rows(out@) =~= self@.take(i as int),
            decreases self@.len() - i,
        {
            let ghost prev = out@;
            out.push((self.rows[i].0, self.rows[i].1.as_slice()));
            assert(self@.take(i + 1) =~= self@.take(i as int).push(self@[i as int]));
            assert(view_rows(out@) =~= view_rows(prev).push(self@[i as int]));
            i = i + 1;
        }
        assert(self@.take(self@.len() as int) =~= self@);
        out
    }
}

/// Rows handed out by reference, as ids and bytes.
pub open spec fn view_rows(r: Seq<(u32, &[u8])>) -> RowsView {
    r.map_values(|x: (u32, &[u8])| (x.0, x.1@))
}

/// The pages of one language.
pub type PagesView = Seq<(ExhPage, RowsView)>;

/// The pages that could be loaded, for every language of a sheet.
pub struct ExdMap {
    data: Vec<(Language, Vec<(ExhPage, ExData)>)>,
}

pub open spec fn view_pages(pages: Seq<(ExhPage, ExData)>) -> PagesView {
    pages.map_values(|p: (ExhPage, ExData)| (p.0, p.1@))
}

/// The pages that were loaded, in order, leaving out those that failed.
pub open spec fn loaded_pages(pages: Seq<(ExhPage, Option<RowsView>)>) -> PagesView
    decreases pages.len(),
{
    if pages.len() == 0 {
        seq![]
    } else {
        let rest = loaded_pages(pages.drop_last());
        match pages.last().1 {
            Some(rows) => rest.push((pages.last().0, rows)),
            None => rest,
        }
    }
}

/// The pages of the last entry for `language`.
pub open spec fn pages_of(entries: Seq<(Language, PagesView)>, language: Language) -> Option<PagesView>
    decreases entries.len(),
{
    if entries.len() == 0 {
        None
    } else if entries.last().0 == language {
        Some(entries.last().1)
    } else {
        pages_of(entries.drop_last(), language)
    }
}

/// The pages of a language are those of its last entry; a language
/// without an entry has none.
pub proof fn lemma_pages_of(entries: Seq<(Language, PagesView)>, language: Language)
    ensures
        pages_of(entries, language) matches Some(p) ==> exists|i: int|
            0 <= i < entries.len() && #[trigger] entries[i] == (language, p) && forall|k: int|
                i < k < entries.len() ==> (#[trigger] entries[k]).0 != language,
        pages_of(entries, language) is None ==> forall|k: int|
            0 <= k < entries.len() ==> (#[trigger] entries[k]).0 != language,
    decreases entries.len(),
{
    if entries.len() > 0 {
        lemma_pages_of(entries.drop_last(), language);
        let last = entries.len() - 1;
        if entries.last().0 == language {
            assert(entries[last] == (language, entries.last().1));
        } else {
            if let Some(p) = pages_of(entries, language) {
                let i = choose|i: int|
                    0 <= i < entries.drop_last().len() && #[trigger] entries.drop_last()[i] == (language, p)
                        && forall|k: int| i < k < entries.drop_last().len() ==> (#[trigger] entries.drop_last()[k]).0 != language;
                assert(entries[i] == (language, p));
                assert forall|k: int| i < k < entries.len() implies (#[trigger] entries[k]).0 != language by {
                    if k < last {
                        assert(entries[k] == entries.drop_last()[k]);
                    }
                }
            } else {
                assert forall|k: int| 0 <= k < entries.len() implies (#[trigger] entries[k]).0 != language by {
                    if k < last {
                        assert(entries[k] == entries.drop_last()[k]);
                    }
                }
            }
        }
    }
}

/// Where a lookup of row `index` in a list of pages ends: at the first page
/// that holds it, at the end, or at a page whose end does not fit in `u32`.
pub enum PageSearch {
    Found(int),
    NotFound,
    Overflow,
}

pub open spec fn find_page(pages: PagesView, index: u32, i: int) -> PageSearch
    decreases pages.len() - i,
{
    if i < 0 || i >= pages.len() {
        PageSearch::NotFound
    } else {
        let p = pages[i].0;
        if p.start <= index && p.start + p.count > u32::MAX {
            PageSearch::Overflow
        } else if p.start <= index && index < p.start + p.count {
            PageSearch::Found(i)
        } else {
            find_page(pages, index, i + 1)
        }
    }
}

/// Whether page `p` holds row `index`: its ids run from `start` up to, but
/// not including, `start + count`.
pub open spec fn page_holds(p: ExhPage, index: u32) -> bool {
    p.start <= index && index < p.start + p.count
}

/// A lookup from page `i` on ends at the first page that holds the row, and
/// finds none only when no page from `i` on holds it; it stops early only at
/// a page that starts at or before the row and whose end does not fit in
/// `u32`. With pages that do not overlap, the page found is the only one
/// that holds the row.
pub proof fn lemma_find_page(pages: PagesView, index: u32, i: int)
    requires
        0 <= i,
    ensures
        find_page(pages, index, i) matches PageSearch::Found(j) ==> {
            &&& i <= j < pages.len()
            &&& pages[j].0.start <= index < pages[j].0.start + pages[j].0.count
            &&& forall|k: int| i <= k < j ==> !page_holds(#[trigger] pages[k].0, index)
        },
        find_page(pages, index, i) is NotFound ==> forall|k: int|
            i <= k < pages.len() ==> !page_holds(#[trigger] pages[k].0, index),
        find_page(pages, index, i) is Overflow ==> exists|k: int|
            i <= k < pages.len() && #[trigger] pages[k].0.start <= index && pages[k].0.start + pages[k].0.count
                > u32::MAX,
    decreases pages.len() - i,
{
    if i < pages.len() {
        lemma_find_page(pages, index, i + 1);
        let p = pages[i].0;
        if !(p.start <= index && p.start + p.count > u32::MAX) && !(p.start <= index && index < p.start
            + p.count) {
            if let PageSearch::Found(j) = find_page(pages, index, i) {
                assert forall|k: int| i <= k < j implies !page_holds(#[trigger] pages[k].0, index) by {
                    if k > i {
                        assert(!page_holds(pages[k].0, index));
                    }
                }
            }
            if find_page(pages, index, i) is NotFound {
                assert forall|k: int| i <= k < pages.len() implies !page_holds(#[trigger] pages[k].0, index) by {
                    if k > i {
                        assert(!page_holds(pages[k].0, index));
                    }
                }
            }
        }
    }
}

/// With pages that do not overlap, a lookup that finds a page finds the one
/// page that holds the row.
pub proof fn lemma_find_page_unique(pages: PagesView, index: u32, j: int, k: int)
    requires
        forall|a: int, b: int|
            0 <= a < b < pages.len() ==> !(page_holds(#[trigger] pages[a].0, index) && page_holds(
                #[trigger] pages[b].0,
                index,
            )),
        find_page(pages, index, 0) == PageSearch::Found(j),
        0 <= k < pages.len(),
        page_holds(pages[k].0, index),
    ensures
        k == j,
{
    lemma_find_page(pages, index, 0);
    if k < j {
        assert(!page_holds(pages[k].0, index));
    } else if k > j {
        assert(!(page_holds(pages[j].0, index) && page_holds(pages[k].0, index)));
    }
}

/// Pages that may have failed to load, as their rows.
pub open spec fn view_page_options(pages: Seq<(ExhPage, Option<ExData>)>) -> Seq<(ExhPage, Option<RowsView>)> {
    pages.map_values(
        |p: (ExhPage, Option<ExData>)|
            (
                p.0,
                match p.1 {
                    Some(d) => Some(d@),
                    None => None,
                },
            ),
    )
}

/// The loaded input of [`ExdMap::new`]: per language, each page with its rows
/// or `None` where it could not be loaded.
pub open spec fn view_loaded(loaded: Seq<(Language, Vec<(ExhPage, Option<ExData>)>)>) -> Seq<
    (Language, Seq<(ExhPage, Option<RowsView>)>),
> {
    loaded.map_values(
        |e: (Language, Vec<(ExhPage, Option<ExData>)>)|
            (
                e.0,
                view_page_options(e.1@),
            ),
    )
}

impl ExdMap {
    pub closed spec fn entries(&self) -> Seq<(Language, PagesView)> {
        self.data@.map_values(|e: (Language, Vec<(ExhPage, ExData)>)| (e.0, view_pages(e.1@)))
    }

    /// The pages held for `language`.
    pub open spec fn pages(&self, language: Language) -> Option<PagesView> {
        pages_of(self.entries(), language)
    }

    /// A map from the loaded pages: for each language, the pages of its last
    /// entry that could be loaded, in order.
    pub fn new(loaded: Vec<(Language, Vec<(ExhPage, Option<ExData>)>)>) -> (r: Self)
        ensures
            forall|language: Language|
                #[trigger] r.pages(language) == pages_of(
                    view_loaded(loaded@).map_values(
                        |e: (Language, Seq<(ExhPage, Option<RowsView>)>)| (e.0, loaded_pages(e.1)),
                    ),
                    language,
                ),
    {
        let r = ExdMap { data: Self::collect(loaded) };
        r
    }

    /// Every entry with the pages that failed to load left out.
    fn collect(loaded: Vec<(Language, Vec<(ExhPage, Option<ExData>)>)>) -> (r: Vec<
        (Language, Vec<(ExhPage, ExData)>),
    >)
        ensures
            r@.map_values(|e: (Language, Vec<(ExhPage, ExData)>)| (e.0, view_pages(e.1@)))
                == view_loaded(loaded@).map_values(
                |e: (Language, Seq<(ExhPage, Option<RowsView>)>)| (e.0, loaded_pages(e.1)),
            ),
    {
        let ghost lv = view_loaded(loaded@);
        let ghost n = loaded@.len();
        let mut out: Vec<(Language, Vec<(ExhPage, ExData)>)> = Vec::new();
        let mut input = loaded;
        while input.len() > 0
            invariant
                lv.len() == n,
                out@.len() + input@.len() == n,
                forall|j: int| 0 <= j < input@.len() ==> #[trigger] view_loaded(input@)[j] == lv[out@.len() + j],
                forall|j: int|
                    0 <= j < out@.len() ==> (#[trigger] out@[j]).0 == lv[j].0 && view_pages(out@[j].1@)
                        == loaded_pages(lv[j].1),
            decreases input@.len(),
        {
            let ghost prev_in = input@;
            let ghost prev_out = out@;
            let (language, pages) = input.remove(0);
            assert(view_loaded(prev_in)[0] == lv[prev_out.len() as int]);
            let kept = Self::keep_loaded(pages);
            out.push((language, kept));
            assert forall|j: int| 0 <= j < input@.len() implies #[trigger] view_loaded(input@)[j] == lv[out@.len() + j] by {
                assert(input@[j] == prev_in[j + 1]);
                assert(view_loaded(prev_in)[j + 1] == lv[prev_out.len() + j + 1]);
            }
            assert forall|j: int| 0 <= j < out@.len() implies (#[trigger] out@[j]).0 == lv[j].0 && view_pages(out@[j].1@)
                        == loaded_pages(lv[j].1) by {
                if j < prev_out.len() {
                    assert(out@[j] == prev_out[j]);
                }
            }
        }
        assert(out@.map_values(|e: (Language, Vec<(ExhPage, ExData)>)| (e.0, view_pages(e.1@)))
            =~= lv.map_values(
            |e: (Language, Seq<(ExhPage, Option<RowsView>)>)| (e.0, loaded_pages(e.1)),
        ));
        out
    }

    /// The pages that could be loaded, in order.
    fn keep_loaded(pages: Vec<(ExhPage, Option<ExData>)>) -> (r: Vec<(ExhPage, ExData)>)
        ensures
            view_pages(r@) == loaded_pages(view_page_options(pages@)),
    {
        let ghost pv = view_page_options(pages@);
        let ghost n = pv.len();
        let mut input = pages;
        let mut out: Vec<(ExhPage, ExData)> = Vec::new();
        while input.len() > 0
            invariant
                pv.len() == n,
                input@.len() <= n,
                forall|j: int| 0 <= j < input@.len() ==> #[trigger] view_page_options(input@)[j] == pv[n - input@.len() + j],
                view_pages(out@) =~= loaded_pages(pv.take(n - input@.len())),
            decreases input@.len(),
        {
            let ghost k = n - input@.len();
            let ghost prev_in = input@;
            let (page, rows) = input.remove(0);
            assert(view_page_options(prev_in)[0] == pv[k]);
            assert(pv.take(k + 1).drop_last() =~= pv.take(k));
            match rows {
                Some(d) => {
                    let ghost prev = out@;
                    out.push((page, d));
                    assert(view_pages(out@) =~= view_pages(prev).push((page, d@)));
                },
                None => {},
            }
            assert forall|j: int| 0 <= j < input@.len() implies #[trigger] view_page_options(input@)[j] == pv[n - input@.len() + j] by {
                assert(input@[j] == prev_in[j + 1]);
                assert(view_page_options(prev_in)[j + 1] == pv[k + j + 1]);
            }
        }
        assert(pv.take(n as int) =~= pv);
        out
    }

    /// The position of the last entry for `language`.
    fn find_language(&self, language: Language) -> (r: Option<usize>)
        ensures
            match pages_of(self.entries(), language) {
                Some(p) => r matches Some(i) && i < self.data@.len() && self.data@[i as int].0 == language
                    && view_pages(self.data@[i as int].1@) == p,
                None => r is None,
            },
    {
        let ghost es = self.entries();
        let mut i: usize = self.data.len();
        assert(es.take(i as int) =~= es);
        while i > 0
            invariant
                es == self.entries(),
                es.len() == self.data@.len(),
                i <= self.data@.len(),
                pages_of(es, language) == pages_of(es.take(i as int), language),
            decreases i,
        {
            assert(es.take(i as int).drop_last() =~= es.take(i - 1));
            if self.data[i - 1].0 == language {
                return Some(i - 1);
            }
            i = i - 1;
        }
        None
    }

    /// The bytes of row `index` in `language`: from the first page of that
    /// language that holds the row.
    pub fn index(&self, index: u32, language: Language) -> (r: Option<&[u8]>)
        requires
            self.pages(language) matches Some(p) ==> !(find_page(p, index, 0) is Overflow),
        ensures
            match self.pages(language) {
                None => r is None,
                Some(p) => match find_page(p, index, 0) {
                    PageSearch::Found(i) => match row_bytes(p[i].1, index) {
                        Some(b) => r matches Some(x) && x@ == b,
                        None => r is None,
                    },
                    _ => r is None,
                },
            },
    {
        let li = match self.find_language(language) {
            Some(li) => li,
            None => return None,
        };
        let items = &self.data[li].1;
        let ghost p = view_pages(items@);
        let mut i: usize = 0;
        while i < items.len()
            invariant
                p == view_pages(items@),
                self.pages(language) == Some(p),
                i <= p.len(),
                !(find_page(p, index, 0) is Overflow),
                find_page(p, index, 0) == find_page(p, index, i as int),
            decreases p.len() - i,
        {
            let page = items[i].0;
            if page.start <= index && index < page.start + page.count {
                return items[i].1.index(index);
            }
            i = i + 1;
        }
        None
    }

    /// Every row of `language`: its id and bytes, page after page.
    pub fn all(&self, language: Language) -> (r: Option<Vec<(u32, &[u8])>>)
        ensures
            match self.pages(language) {
                None => r is None,
                Some(p) => r matches Some(x) && view_rows(x@) == all_rows(p),
            },
    {
        let li = match self.find_language(language) {
            Some(li) => li,
            None => return None,
        };
        let items = &self.data[li].1;
        let ghost p = view_pages(items@);
        let mut out: Vec<(u32, &[u8])> = Vec::new();
        let mut i: usize = 0;
        while i < items.len()
            invariant
                p == view_pages(items@),
                i <= p.len(),
                view_rows(out@) =~= all_rows(p.take(i as int)),
            decreases p.len() - i,
        {
            let rows = items[i].1.all();
            let ghost prev = out@;
            let mut k: usize = 0;
            while k < rows.len()
                invariant
                    k <= rows@.len(),
                    view_rows(out@) =~= view_rows(prev) + view_rows(rows@).take(k as int),
                decreases rows@.len() - k,
            {
                let ghost before = out@;
                out.push(rows[k]);
                assert(view_rows(out@) =~= view_rows(before).push(view_rows(rows@)[k as int]));
                assert(view_rows(rows@).take(k + 1) =~= view_rows(rows@).take(k as int).push(view_rows(rows@)[k as int]));
                k = k + 1;
            }
            assert(view_rows(rows@).take(rows@.len() as int) =~= view_rows(rows@));
            assert(p.take(i + 1).drop_last() =~= p.take(i as int));
            i = i + 1;
        }
        assert(p.take(p.len() as int) =~= p);
        Some(out)
    }
}

/// The rows of the pages, page after page.
pub open spec fn all_rows(pages: PagesView) -> RowsView
    decreases pages.len(),
{
    if pages.len() == 0 {
        seq![]
    } else {
        all_rows(pages.drop_last()) + pages.last().1
    }
}

} // verus!
