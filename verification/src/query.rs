//! The paginated cursor over the result of a scan: pages of row offsets, the
//! page the cursor stands on, and the rows of that page once they were
//! fetched.

use crate::alba_types::{all_agree, AlbaTypes, AlbaValue};
use vstd::prelude::*;
use vstd::string::*;

verus! {

/// The largest number of row offsets in one page.
pub const PAGE_SIZE: usize = 100;

/// The test that a column type is a type at all.
pub open spec fn typed() -> spec_fn(AlbaValue) -> bool {
    |v: AlbaValue| !(v is NONE)
}

/// The test that a column name is not empty.
pub open spec fn named() -> spec_fn(Seq<char>) -> bool {
    |name: Seq<char>| name.len() > 0
}

/// The rows among what was fetched: one offset may have given no row.
pub open spec fn present(fetched: Seq<Option<Seq<AlbaValue>>>) -> Seq<Seq<AlbaValue>>
    decreases fetched.len(),
{
    if fetched.len() == 0 {
        Seq::empty()
    } else {
        match fetched.last() {
            Some(row) => present(fetched.drop_last()).push(row),
            None => present(fetched.drop_last()),
        }
    }
}

/// A cursor as a value.
pub struct QueryView {
    /// The column names and the rows of the page that was loaded last.
    pub rows: (Seq<Seq<char>>, Seq<Seq<AlbaValue>>),
    /// The pages: row offsets and the name of the container they belong to.
    pub pages: Seq<(Seq<u64>, Seq<char>)>,
    /// The page the cursor stands on.
    pub current_page: usize,
    pub column_names: Seq<Seq<char>>,
    pub column_types: Seq<AlbaValue>,
    /// The token that names the cursor; empty for a cursor that is not handed
    /// out.
    pub id: Seq<char>,
}

impl QueryView {
    /// No page holds more than 100 row offsets.
    pub open spec fn wf(self) -> bool {
        forall|i: int| 0 <= i < self.pages.len() ==> (#[trigger] self.pages[i]).0.len() <= PAGE_SIZE
    }

    /// A cursor without pages and rows.
    pub open spec fn empty(column_types: Seq<AlbaValue>, id: Seq<char>) -> QueryView {
        QueryView {
            rows: (Seq::empty(), Seq::empty()),
            pages: Seq::empty(),
            current_page: 0,
            column_names: Seq::empty(),
            column_types,
            id,
        }
    }

    /// The cursor without its empty column names and without the columns of
    /// no type.
    pub open spec fn trimmed(self) -> QueryView {
        QueryView {
            column_names: self.column_names.filter(named()),
            column_types: self.column_types.filter(typed()),
            ..self
        }
    }

    /// The cursor with one more page.
    pub open spec fn pushed(self, page: (Seq<u64>, Seq<char>)) -> QueryView {
        QueryView { pages: self.pages.push(page), ..self }
    }

    /// A page after the offsets of another were appended to it, as far as the
    /// page has room.
    pub open spec fn joined_page(mine: (Seq<u64>, Seq<char>), theirs: (Seq<u64>, Seq<char>)) -> (
        Seq<u64>,
        Seq<char>,
    ) {
        let room = PAGE_SIZE - mine.0.len();
        if room <= 0 {
            mine
        } else if theirs.0.len() <= room {
            (mine.0 + theirs.0, mine.1)
        } else {
            (mine.0 + theirs.0.take(room), mine.1)
        }
    }

    /// The pages of two cursors joined: page by page where both have one, and
    /// the further pages of the longer one.
    pub open spec fn joined_pages(
        mine: Seq<(Seq<u64>, Seq<char>)>,
        theirs: Seq<(Seq<u64>, Seq<char>)>,
    ) -> Seq<(Seq<u64>, Seq<char>)> {
        Seq::new(
            if mine.len() >= theirs.len() {
                mine.len()
            } else {
                theirs.len()
            },
            |i: int|
                if i < mine.len() && i < theirs.len() {
                    Self::joined_page(mine[i], theirs[i])
                } else if i < mine.len() {
                    mine[i]
                } else {
                    theirs[i]
                },
        )
    }

    /// The cursor after another was joined to it: unchanged where the column
    /// types of the two differ.
    pub open spec fn joined(self, foreign: QueryView) -> QueryView {
        if all_agree(foreign.column_types, self.column_types) {
            (QueryView { pages: Self::joined_pages(self.pages, foreign.pages), ..self }).trimmed()
        } else {
            self
        }
    }

    /// Whether no page follows the page the cursor stands on.
    pub open spec fn at_last(self) -> bool {
        self.pages.len() == 0 || self.current_page + 1 >= self.pages.len()
    }

    /// Whether no page comes before the page the cursor stands on.
    pub open spec fn at_first(self) -> bool {
        self.pages.len() == 0 || self.current_page == 0
    }

    /// The cursor on another page.
    pub open spec fn on_page(self, page: int) -> QueryView {
        QueryView { current_page: page as usize, ..self }
    }

    /// The cursor after the rows of its page were fetched.
    pub open spec fn loaded(
        self,
        column_names: Seq<Seq<char>>,
        fetched: Seq<Option<Seq<AlbaValue>>>,
    ) -> QueryView {
        (QueryView { rows: (column_names, present(fetched)), ..self }).trimmed()
    }
}

/// Why the rows of a page cannot be loaded.
#[derive(Debug, Clone)]
pub enum QueryError {
    /// The cursor stands behind its last page.
    NoPage,
    /// The database has no container of the name that the page gives.
    NoContainer(String),
}

/// What the database is asked for: the rows at the given offsets of the
/// named container, each as the single-row range from the offset to the next.
#[derive(Debug, Clone)]
pub struct PageRequest {
    pub container: String,
    pub offsets: Vec<u64>,
}

impl PageRequest {
    /// The range that holds the row at `offset` alone: from the offset to the
    /// next. The largest offset has no next, and no such range.
    pub fn single_row(offset: u64) -> (range: Option<(u64, u64)>)
        ensures
            range == if offset < u64::MAX {
                Some((offset, (offset + 1) as u64))
            } else {
                None::<(u64, u64)>
            },
    {
        if offset < u64::MAX {
            Some((offset, offset + 1))
        } else {
            None
        }
    }
}

/// What the database answered: the column names of the container, and for
/// each offset asked, in order, its row or `None` where the offset gave no
/// row.
#[derive(Debug, Clone)]
pub struct Fetched {
    pub column_names: Vec<String>,
    pub rows: Vec<Option<Vec<AlbaTypes>>>,
}

/// A cursor over the result of a scan.
#[derive(Debug)]
pub struct Query {
    rows: (Vec<String>, Vec<Vec<AlbaTypes>>),
    pages: Vec<(Vec<u64>, String)>,
    current_page: usize,
    column_names: Vec<String>,
    column_types: Vec<AlbaTypes>,
    id: String,
}

impl View for Query {
    type V = QueryView;

    closed spec fn view(&self) -> QueryView {
        QueryView {
            rows: self.rows.deep_view(),
            pages: self.pages.deep_view(),
            current_page: self.current_page,
            column_names: self.column_names.deep_view(),
            column_types: self.column_types.deep_view(),
            id: self.id@,
        }
    }
}

/// The deep view of a list with one more item is the deep view of the list
/// with the deep view of the item appended.
pub proof fn lemma_deep_push<T: DeepView>(before: Vec<T>, after: Vec<T>, item: T)
    requires
        after@ == before@.push(item),
    ensures
        after.deep_view() == before.deep_view().push(item.deep_view()),
{
    assert forall|k: int| 0 <= k < after@.len() implies after.deep_view()[k]
        == before.deep_view().push(item.deep_view())[k] by {
        if k < before@.len() {
            assert(after@[k] == before@[k]);
        } else {
            assert(after@[k] == item);
        }
    }
    assert(after.deep_view() =~= before.deep_view().push(item.deep_view()));
}

/// A copy of a list of row offsets.
pub fn copy_offsets(offsets: &Vec<u64>) -> (copy: Vec<u64>)
    ensures
        copy@ == offsets@,
        copy.deep_view() == offsets.deep_view(),
{
    let mut copy: Vec<u64> = Vec::new();
    let mut i: usize = 0;
    while i < offsets.len()
        invariant
            i <= offsets.len(),
            copy@ == offsets@.take(i as int),
        decreases offsets.len() - i,
    {
        copy.push(offsets[i]);
        i = i + 1;
        assert(copy@ =~= offsets@.take(i as int));
    }
    assert(offsets@.take(offsets.len() as int) =~= offsets@);
    assert(copy.deep_view() =~= offsets.deep_view());
    copy
}

/// A copy of a list of texts.
pub fn copy_names(names: &Vec<String>) -> (copy: Vec<String>)
    ensures
        copy.deep_view() == names.deep_view(),
{
    let mut copy: Vec<String> = Vec::new();
    let mut i: usize = 0;
    while i < names.len()
        invariant
            i <= names.len(),
            copy.deep_view() == names.deep_view().take(i as int),
        decreases names.len() - i,
    {
        let ghost before = copy;
        let item = names[i].clone();
        let ghost added = item;
        copy.push(item);
        proof {
            lemma_deep_push(before, copy, added);
            assert(names.deep_view().take(i + 1) =~= names.deep_view().take(i as int).push(
                names.deep_view()[i as int],
            ));
        }
        i = i + 1;
    }
    assert(names.deep_view().take(names.len() as int) =~= names.deep_view());
    copy
}

/// A copy of a list of values.
pub fn copy_values(values: &Vec<AlbaTypes>) -> (copy: Vec<AlbaTypes>)
    ensures
        copy.deep_view() == values.deep_view(),
{
    let mut copy: Vec<AlbaTypes> = Vec::new();
    let mut i: usize = 0;
    while i < values.len()
        invariant
            i <= values.len(),
            copy.deep_view() == values.deep_view().take(i as int),
        decreases values.len() - i,
    {
        let ghost before = copy;
        let item = values[i].duplicate();
        let ghost added = item;
        copy.push(item);
        proof {
            lemma_deep_push(before, copy, added);
            assert(values.deep_view().take(i + 1) =~= values.deep_view().take(i as int).push(
                values.deep_view()[i as int],
            ));
        }
        i = i + 1;
    }
    assert(values.deep_view().take(values.len() as int) =~= values.deep_view());
    copy
}

/// A copy of a list of rows.
pub fn copy_rows(rows: &Vec<Vec<AlbaTypes>>) -> (copy: Vec<Vec<AlbaTypes>>)
    ensures
        copy.deep_view() == rows.deep_view(),
{
    let mut copy: Vec<Vec<AlbaTypes>> = Vec::new();
    let mut i: usize = 0;
    while i < rows.len()
        invariant
            i <= rows.len(),
            copy.deep_view() == rows.deep_view().take(i as int),
        decreases rows.len() - i,
    {
        let ghost before = copy;
        let item = copy_values(&rows[i]);
        let ghost added = item;
        copy.push(item);
        proof {
            lemma_deep_push(before, copy, added);
            assert(rows.deep_view().take(i + 1) =~= rows.deep_view().take(i as int).push(
                rows.deep_view()[i as int],
            ));
        }
        i = i + 1;
    }
    assert(rows.deep_view().take(rows.len() as int) =~= rows.deep_view());
    copy
}

/// A copy of a list of pages.
pub fn copy_pages(pages: &Vec<(Vec<u64>, String)>) -> (copy: Vec<(Vec<u64>, String)>)
    ensures
        copy.deep_view() == pages.deep_view(),
{
    let mut copy: Vec<(Vec<u64>, String)> = Vec::new();
    let mut i: usize = 0;
    while i < pages.len()
        invariant
            i <= pages.len(),
            copy.deep_view() == pages.deep_view().take(i as int),
        decreases pages.len() - i,
    {
        let ghost before = copy;
        let item = (copy_offsets(&pages[i].0), pages[i].1.clone());
        let ghost added = item;
        copy.push(item);
        proof {
            lemma_deep_push(before, copy, added);
            assert(pages.deep_view().take(i + 1) =~= pages.deep_view().take(i as int).push(
                pages.deep_view()[i as int],
            ));
        }
        i = i + 1;
    }
    assert(pages.deep_view().take(pages.len() as int) =~= pages.deep_view());
    copy
}

/// The values that are a type at all, in their order.
pub fn typed_only(values: &Vec<AlbaTypes>) -> (kept: Vec<AlbaTypes>)
    ensures
        kept.deep_view() == values.deep_view().filter(typed()),
{
    let mut kept: Vec<AlbaTypes> = Vec::new();
    let mut i: usize = 0;
    proof {
        assert(values.deep_view().take(0) =~= Seq::<AlbaValue>::empty());
        reveal(Seq::filter);
        assert(kept.deep_view() =~= values.deep_view().take(0).filter(typed()));
    }
    while i < values.len()
        invariant
            i <= values.len(),
            kept.deep_view() == values.deep_view().take(i as int).filter(typed()),
        decreases values.len() - i,
    {
        let ghost before = kept.deep_view();
        proof {
            let v = values.deep_view()[i as int];
            assert(values.deep_view().take(i + 1) =~= values.deep_view().take(i as int).push(v));
            values.deep_view().take(i as int).lemma_filter_push(v, typed());
        }
        match &values[i] {
            AlbaTypes::NONE => {},
            other => {
                let ghost earlier = kept;
                let item = other.duplicate();
                let ghost added = item;
                kept.push(item);
                proof {
                    lemma_deep_push(earlier, kept, added);
                }
            },
        }
        i = i + 1;
    }
    assert(values.deep_view().take(values.len() as int) =~= values.deep_view());
    kept
}

/// The texts that are not empty, in their order.
pub fn named_only(names: &Vec<String>) -> (kept: Vec<String>)
    ensures
        kept.deep_view() == names.deep_view().filter(named()),
{
    let mut kept: Vec<String> = Vec::new();
    let mut i: usize = 0;
    proof {
        assert(names.deep_view().take(0) =~= Seq::<Seq<char>>::empty());
        reveal(Seq::filter);
        assert(kept.deep_view() =~= names.deep_view().take(0).filter(named()));
    }
    while i < names.len()
        invariant
            i <= names.len(),
            kept.deep_view() == names.deep_view().take(i as int).filter(named()),
        decreases names.len() - i,
    {
        let ghost before = kept.deep_view();
        proof {
            let v = names.deep_view()[i as int];
            assert(names.deep_view().take(i + 1) =~= names.deep_view().take(i as int).push(v));
            names.deep_view().take(i as int).lemma_filter_push(v, named());
        }
        if names[i].as_str().unicode_len() > 0 {
            let ghost earlier = kept;
            let item = names[i].clone();
            let ghost added = item;
            kept.push(item);
            proof {
                lemma_deep_push(earlier, kept, added);
            }
        }
        i = i + 1;
    }
    assert(names.deep_view().take(names.len() as int) =~= names.deep_view());
    kept
}

/// No page of a cursor ever holds more than 100 row offsets: a cursor without
/// pages keeps the cap, and trimming, moving, loading rows, appending a page
/// within the cap and joining another cursor that keeps it all leave it
/// standing.
pub proof fn law_page_cap(
    q: QueryView,
    foreign: QueryView,
    page: (Seq<u64>, Seq<char>),
    to: int,
    column_names: Seq<Seq<char>>,
    fetched: Seq<Option<Seq<AlbaValue>>>,
)
    requires
        q.wf(),
    ensures
        QueryView::empty(q.column_types, q.id).wf(),
        q.trimmed().wf(),
        q.on_page(to).wf(),
        q.loaded(column_names, fetched).wf(),
        page.0.len() <= PAGE_SIZE ==> q.pushed(page).wf(),
        foreign.wf() ==> q.joined(foreign).wf(),
{
    if page.0.len() <= PAGE_SIZE {
        assert forall|i: int| 0 <= i < q.pushed(page).pages.len() implies (#[trigger] q.pushed(
            page,
        ).pages[i]).0.len() <= PAGE_SIZE by {
            if i < q.pages.len() {
                assert(q.pages[i].0.len() <= PAGE_SIZE);
            }
        }
    }
    if foreign.wf() {
        let pages = QueryView::joined_pages(q.pages, foreign.pages);
        assert forall|i: int| 0 <= i < pages.len() implies (#[trigger] pages[i]).0.len()
            <= PAGE_SIZE by {
            if i < q.pages.len() {
                assert(q.pages[i].0.len() <= PAGE_SIZE);
            }
            if i < foreign.pages.len() {
                assert(foreign.pages[i].0.len() <= PAGE_SIZE);
            }
        }
    }
}

/// Tests whether two lists of values are equal, value by value.
pub fn same_values(a: &Vec<AlbaTypes>, b: &Vec<AlbaTypes>) -> (same: bool)
    ensures
        same == all_agree(a.deep_view(), b.deep_view()),
{
    if a.len() != b.len() {
        return false;
    }
    let mut i: usize = 0;
    while i < a.len()
        invariant
            i <= a.len(),
            a.len() == b.len(),
            forall|k: int| 0 <= k < i ==> (#[trigger] a.deep_view()[k]).agrees(b.deep_view()[k]),
        decreases a.len() - i,
    {
        if !a[i].same_as(&b[i]) {
            assert(!a.deep_view()[i as int].agrees(b.deep_view()[i as int]));
            return false;
        }
        i = i + 1;
    }
    true
}

/// The rows among what was fetched, copied in their order.
pub fn present_rows(fetched: &Vec<Option<Vec<AlbaTypes>>>) -> (rows: Vec<Vec<AlbaTypes>>)
    ensures
        rows.deep_view() == present(fetched.deep_view()),
{
    let mut rows: Vec<Vec<AlbaTypes>> = Vec::new();
    let mut i: usize = 0;
    proof {
        assert(fetched.deep_view().take(0) =~= Seq::<Option<Seq<AlbaValue>>>::empty());
        assert(rows.deep_view() =~= present(fetched.deep_view().take(0)));
    }
    while i < fetched.len()
        invariant
            i <= fetched.len(),
            rows.deep_view() == present(fetched.deep_view().take(i as int)),
        decreases fetched.len() - i,
    {
        proof {
            assert(fetched.deep_view().take(i + 1).drop_last() =~= fetched.deep_view().take(
                i as int,
            ));
            assert(fetched.deep_view().take(i + 1).last() == fetched.deep_view()[i as int]);
        }
        match &fetched[i] {
            Some(row) => {
                let ghost earlier = rows;
                let item = copy_values(row);
                let ghost added = item;
                rows.push(item);
                proof {
                    lemma_deep_push(earlier, rows, added);
                }
            },
            None => {},
        }
        i = i + 1;
    }
    assert(fetched.deep_view().take(fetched.len() as int) =~= fetched.deep_view());
    rows
}

impl Query {
    /// A cursor without pages, named by `id`. The columns of no type are left
    /// out.
    pub fn new(column_types: Vec<AlbaTypes>, id: String) -> (query: Query)
        ensures
            query@ == QueryView::empty(column_types.deep_view().filter(typed()), id@),
            query@.wf(),
    {
        let mut query = Query {
            rows: (Vec::new(), Vec::new()),
            pages: Vec::new(),
            current_page: 0,
            column_names: Vec::new(),
            column_types,
            id,
        };
        proof {
            assert(query.rows.0.deep_view() =~= Seq::<Seq<char>>::empty());
            assert(query.rows.1.deep_view() =~= Seq::<Seq<AlbaValue>>::empty());
            assert(query.pages.deep_view() =~= Seq::<(Seq<u64>, Seq<char>)>::empty());
            assert(query.column_names.deep_view() =~= Seq::<Seq<char>>::empty());
            assert(Seq::<Seq<char>>::empty().filter(named()) =~= Seq::<Seq<char>>::empty()) by {
                reveal(Seq::filter);
            }
        }
        query.trim();
        query
    }

    /// A cursor without pages and without a name, for use inside the engine.
    pub fn new_none(column_types: Vec<AlbaTypes>) -> (query: Query)
        ensures
            query@ == QueryView::empty(column_types.deep_view().filter(typed()), Seq::empty()),
            query@.wf(),
    {
        Query::new(column_types, String::new())
    }

    /// A cursor made of the given parts, or `None` where a page holds more than
    /// 100 row offsets.
    pub fn from_parts(
        rows: (Vec<String>, Vec<Vec<AlbaTypes>>),
        pages: Vec<(Vec<u64>, String)>,
        current_page: usize,
        column_names: Vec<String>,
        column_types: Vec<AlbaTypes>,
        id: String,
    ) -> (made: Option<Query>)
        ensures
            match made {
                Some(query) => query@.wf() && query@ == (QueryView {
                    rows: rows.deep_view(),
                    pages: pages.deep_view(),
                    current_page,
                    column_names: column_names.deep_view(),
                    column_types: column_types.deep_view(),
                    id: id@,
                }),
                None => exists|i: int|
                    0 <= i < pages.deep_view().len() && (#[trigger] pages.deep_view()[i]).0.len()
                        > PAGE_SIZE,
            },
    {
        let mut i: usize = 0;
        while i < pages.len()
            invariant
                i <= pages.len(),
                forall|k: int|
                    0 <= k < i ==> (#[trigger] pages.deep_view()[k]).0.len() <= PAGE_SIZE,
            decreases pages.len() - i,
        {
            if pages[i].0.len() > PAGE_SIZE {
                assert(pages.deep_view()[i as int].0.len() > PAGE_SIZE);
                return None;
            }
            assert(pages.deep_view()[i as int].0.len() <= PAGE_SIZE);
            i = i + 1;
        }
        Some(Query { rows, pages, current_page, column_names, column_types, id })
    }

    /// The column names and the rows of the page that was loaded last.
    pub fn rows(&self) -> (rows: &(Vec<String>, Vec<Vec<AlbaTypes>>))
        ensures
            rows.deep_view() == self@.rows,
    {
        &self.rows
    }

    /// The pages of the cursor.
    pub fn pages(&self) -> (pages: &Vec<(Vec<u64>, String)>)
        ensures
            pages.deep_view() == self@.pages,
    {
        &self.pages
    }

    /// The page the cursor stands on.
    pub fn current_page(&self) -> (page: usize)
        ensures
            page == self@.current_page,
    {
        self.current_page
    }

    /// The names of the columns.
    pub fn column_names(&self) -> (names: &Vec<String>)
        ensures
            names.deep_view() == self@.column_names,
    {
        &self.column_names
    }

    /// The types of the columns.
    pub fn column_types(&self) -> (types: &Vec<AlbaTypes>)
        ensures
            types.deep_view() == self@.column_types,
    {
        &self.column_types
    }

    /// The token that names the cursor.
    pub fn id(&self) -> (id: &String)
        ensures
            id@ == self@.id,
    {
        &self.id
    }

    /// A copy of the cursor.
    pub fn duplicate(&self) -> (copy: Query)
        ensures
            copy@ == self@,
    {
        Query {
            rows: (copy_names(&self.rows.0), copy_rows(&self.rows.1)),
            pages: copy_pages(&self.pages),
            current_page: self.current_page,
            column_names: copy_names(&self.column_names),
            column_types: copy_values(&self.column_types),
            id: self.id.clone(),
        }
    }

    /// Strips the empty column names and the columns of no type.
    pub fn trim(&mut self)
        ensures
            final(self)@ == old(self)@.trimmed(),
            old(self)@.wf() ==> final(self)@.wf(),
    {
        let types = typed_only(&self.column_types);
        let names = named_only(&self.column_names);
        self.column_types = types;
        self.column_names = names;
        proof {
            if old(self)@.wf() {
                assert forall|i: int| 0 <= i < self@.pages.len() implies (
                #[trigger] self@.pages[i]).0.len() <= PAGE_SIZE by {
                    assert(old(self)@.pages[i].0.len() <= PAGE_SIZE);
                }
            }
        }
    }

    /// Appends a page.
    pub fn push(&mut self, subject: (Vec<u64>, String))
        requires
            old(self)@.wf(),
            subject.0@.len() <= PAGE_SIZE,
        ensures
            final(self)@ == old(self)@.pushed(subject.deep_view()),
            final(self)@.wf(),
    {
        let ghost earlier = self.pages;
        let ghost added = subject;
        self.pages.push(subject);
        proof {
            lemma_deep_push(earlier, self.pages, added);
            assert(added.deep_view().0.len() == added.0@.len());
            assert forall|i: int| 0 <= i < self@.pages.len() implies (#[trigger] self@.pages[i]).0.len()
                <= PAGE_SIZE by {
                if i < old(self)@.pages.len() {
                    assert(old(self)@.pages[i].0.len() <= PAGE_SIZE);
                }
            }
        }
    }

    /// Joins another cursor to this one, where the column types of the two are
    /// equal: a page that both have takes the offsets of the other's page as
    /// far as it has room, and the pages that only the other has are appended.
    /// Where the column types differ, nothing changes.
    pub fn join(&mut self, foreign: Query)
        requires
            old(self)@.wf(),
            foreign@.wf(),
        ensures
            final(self)@ == old(self)@.joined(foreign@),
            final(self)@.wf(),
            !all_agree(foreign@.column_types, old(self)@.column_types) ==> final(self)@ == old(self)@,
    {
        if !same_values(&foreign.column_types, &self.column_types) {
            return ;
        }
        let ghost mine = self@.pages;
        let ghost theirs = foreign@.pages;
        let ghost goal = QueryView::joined_pages(mine, theirs);
        let longest: usize = if self.pages.len() >= foreign.pages.len() {
            self.pages.len()
        } else {
            foreign.pages.len()
        };
        let mut pages: Vec<(Vec<u64>, String)> = Vec::new();
        let mut idx: usize = 0;
        proof {
            assert(pages.deep_view() =~= goal.take(0));
        }
        while idx < longest
            invariant
                idx <= longest,
                longest == goal.len(),
                mine == self.pages.deep_view(),
                theirs == foreign.pages.deep_view(),
                mine.len() == self.pages.len(),
                theirs.len() == foreign.pages.len(),
                goal == QueryView::joined_pages(mine, theirs),
                forall|i: int| 0 <= i < mine.len() ==> (#[trigger] mine[i]).0.len() <= PAGE_SIZE,
                forall|i: int| 0 <= i < theirs.len() ==> (#[trigger] theirs[i]).0.len() <= PAGE_SIZE,
                pages.deep_view() == goal.take(idx as int),
            decreases longest - idx,
        {
            let page: (Vec<u64>, String) = if idx < self.pages.len() {
                let mut ids = copy_offsets(&self.pages[idx].0);
                assert(ids@ == mine[idx as int].0) by {
                    assert(self.pages.deep_view()[idx as int].0 =~= self.pages@[idx as int].0@);
                }
                if idx < foreign.pages.len() {
                    let other = &foreign.pages[idx].0;
                    assert(other@ == theirs[idx as int].0) by {
                        assert(foreign.pages.deep_view()[idx as int].0 =~= other@);
                    }
                    let ghost start = ids@;
                    let mut k: usize = 0;
                    assert(start + other@.take(0) =~= start);
                    while k < other.len() && ids.len() < PAGE_SIZE
                        invariant
                            k <= other.len(),
                            start.len() + k <= PAGE_SIZE,
                            ids@ == start + other@.take(k as int),
                        decreases other.len() - k,
                    {
                        ids.push(other[k]);
                        k = k + 1;
                        assert(ids@ =~= start + other@.take(k as int));
                    }
                    proof {
                        assert(other@.take(other@.len() as int) =~= other@);
                        assert(ids@ == QueryView::joined_page(mine[idx as int], theirs[idx as int]).0);
                    }
                }
                let name = self.pages[idx].1.clone();
                assert(ids.deep_view() =~= ids@);
                (ids, name)
            } else {
                let ids = copy_offsets(&foreign.pages[idx].0);
                let name = foreign.pages[idx].1.clone();
                assert(ids.deep_view() =~= foreign.pages.deep_view()[idx as int].0);
                (ids, name)
            };
            let ghost earlier = pages;
            let ghost added = page;
            pages.push(page);
            proof {
                lemma_deep_push(earlier, pages, added);
                assert(added.deep_view() == goal[idx as int]);
                assert(goal.take(idx + 1) =~= goal.take(idx as int).push(goal[idx as int]));
            }
            idx = idx + 1;
        }
        proof {
            assert(goal.take(longest as int) =~= goal);
            assert forall|i: int| 0 <= i < goal.len() implies (#[trigger] goal[i]).0.len()
                <= PAGE_SIZE by {
                if i < mine.len() {
                    assert(mine[i].0.len() <= PAGE_SIZE);
                }
                if i < theirs.len() {
                    assert(theirs[i].0.len() <= PAGE_SIZE);
                }
            }
        }
        self.pages = pages;
        self.trim();
    }

    /// What has to be fetched before the rows of the current page can be
    /// loaded: nothing for a cursor without pages, the offsets and the
    /// container of the page the cursor stands on otherwise. A cursor that
    /// stands behind its last page has no such page.
    pub fn page_request(&self) -> (wanted: Result<Option<PageRequest>, QueryError>)
        ensures
            match wanted {
                Ok(None) => self@.pages.len() == 0,
                Ok(Some(request)) => self@.current_page < self@.pages.len() && request.offsets@
                    == self@.pages[self@.current_page as int].0 && request.container@
                    == self@.pages[self@.current_page as int].1,
                Err(QueryError::NoPage) => self@.pages.len() > 0 && self@.current_page
                    >= self@.pages.len(),
                Err(QueryError::NoContainer(_)) => false,
            },
    {
        if self.pages.len() == 0 {
            return Ok(None);
        }
        if self.current_page >= self.pages.len() {
            return Err(QueryError::NoPage);
        }
        let offsets = copy_offsets(&self.pages[self.current_page].0);
        let container = self.pages[self.current_page].1.clone();
        proof {
            assert(self.pages.deep_view()[self.current_page as int].0
                =~= self.pages@[self.current_page as int].0@);
        }
        Ok(Some(PageRequest { container, offsets }))
    }

    /// Takes in what the database answered to the request of the current page,
    /// `None` standing for a container that the database does not have. The
    /// rows that were found replace the rows of the cursor, with the column
    /// names of the container. A cursor without pages is left as it is.
    pub fn load_rows(&mut self, answer: Option<Fetched>) -> (outcome: Result<(), QueryError>)
        requires
            old(self)@.wf(),
        ensures
            final(self)@.wf(),
            match outcome {
                Ok(_) => if old(self)@.pages.len() == 0 {
                    final(self)@ == old(self)@
                } else {
                    &&& old(self)@.current_page < old(self)@.pages.len()
                    &&& answer is Some
                    &&& final(self)@ == old(self)@.loaded(
                        answer->0.column_names.deep_view(),
                        answer->0.rows.deep_view(),
                    )
                },
                Err(QueryError::NoPage) => old(self)@.pages.len() > 0 && old(self)@.current_page
                    >= old(self)@.pages.len() && final(self)@ == old(self)@,
                Err(QueryError::NoContainer(name)) => old(self)@.pages.len() > 0 && old(self)@.current_page < old(self)@.pages.len() && answer is None && name@ == old(self)@.pages[old(self)@.current_page as int].1 && final(self)@ == old(self)@,
            },
    {
        if self.pages.len() == 0 {
            return Ok(());
        }
        if self.current_page >= self.pages.len() {
            return Err(QueryError::NoPage);
        }
        match answer {
            None => {
                let name = self.pages[self.current_page].1.clone();
                Err(QueryError::NoContainer(name))
            },
            Some(fetched) => {
                let rows = present_rows(&fetched.rows);
                let names = copy_names(&fetched.column_names);
                self.rows = (names, rows);
                self.trim();
                Ok(())
            },
        }
    }

    /// Moves the cursor to the next page and says what has to be fetched for
    /// it. A cursor without pages, or on its last page, stays where it is and
    /// asks for nothing.
    pub fn next(&mut self) -> (wanted: Option<PageRequest>)
        ensures
            match wanted {
                None => old(self)@.at_last() && final(self)@ == old(self)@,
                Some(request) => !old(self)@.at_last() && final(self)@ == old(self)@.on_page(
                    old(self)@.current_page + 1,
                ) && request.offsets@ == final(self)@.pages[final(self)@.current_page as int].0
                    && request.container@ == final(self)@.pages[final(self)@.current_page as int].1,
            },
    {
        if self.pages.len() == 0 {
            return None;
        }
        if self.current_page >= self.pages.len() - 1 {
            return None;
        }
        self.current_page = self.current_page + 1;
        match self.page_request() {
            Ok(Some(request)) => Some(request),
            _ => None,
        }
    }

    /// Moves the cursor to the page before and says what has to be fetched for
    /// it. A cursor without pages, or on its first page, stays where it is and
    /// asks for nothing; so does a cursor that comes to stand behind its
    /// last page.
    pub fn previous(&mut self) -> (wanted: Result<Option<PageRequest>, QueryError>)
        ensures
            match wanted {
                Ok(None) => old(self)@.at_first() && final(self)@ == old(self)@,
                Ok(Some(request)) => !old(self)@.at_first() && final(self)@ == old(self)@.on_page(
                    old(self)@.current_page - 1,
                ) && final(self)@.current_page < final(self)@.pages.len() && request.offsets@
                    == final(self)@.pages[final(self)@.current_page as int].0
                    && request.container@ == final(self)@.pages[final(self)@.current_page as int].1,
                Err(QueryError::NoPage) => !old(self)@.at_first() && final(self)@ == old(self)@.on_page(old(self)@.current_page - 1) && final(self)@.current_page >= final(self)@.pages.len(),
                Err(QueryError::NoContainer(_)) => false,
            },
    {
        if self.pages.len() == 0 {
            return Ok(None);
        }
        if self.current_page == 0 {
            return Ok(None);
        }
        self.current_page = self.current_page - 1;
        self.page_request()
    }
}

} // verus!
