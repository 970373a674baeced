//! The full scan of a container's row file: which bytes to read next, whether
//! a row fits the declared columns, and the pages that the matching rows
//! fill.

use crate::alba_types::{AlbaTypes, AlbaValue};
use crate::query::{lemma_deep_push, typed, Query, QueryView, PAGE_SIZE};
use vstd::prelude::*;

verus! {

/// Bytes that one read of the row file may take, as far as more than one row
/// fits in them.
pub const CHUNK_MATRIX: usize = 40960;

/// What a scan is told of the container and its row file.
#[derive(Debug, Clone)]
pub struct SearchArguments {
    /// Bytes of one row.
    pub element_size: usize,
    /// Bytes of the file before the first row.
    pub header_offset: usize,
    /// Bytes of the file.
    pub file_size: usize,
    /// The columns of the container: name and type.
    pub container_values: Vec<(String, AlbaTypes)>,
    pub container_name: String,
}

/// The part of the row file to read next.
#[derive(Clone, Copy, Debug, PartialEq, Eq, Structural)]
pub struct Window {
    /// Position of the first byte.
    pub offset: usize,
    /// Number of bytes.
    pub bytes: usize,
    /// Number of the first row.
    pub first_row: usize,
    /// Number of rows.
    pub rows: usize,
}

/// Why a row does not fit the columns of its container.
#[derive(Clone, Copy, Debug, PartialEq, Eq, Structural)]
pub enum ScanError {
    /// The row has no value for a column.
    MissingColumn,
    /// A value is not of the type of its column.
    TypeMismatch,
}

/// The number of rows in a file.
pub open spec fn row_count(file_size: int, header_offset: int, element_size: int) -> int {
    (file_size - header_offset) / element_size
}

/// The number of rows that one read takes at most.
pub open spec fn window_rows(element_size: int, total: int) -> int {
    let fit = if (CHUNK_MATRIX as int) / element_size < 1 {
        1
    } else {
        (CHUNK_MATRIX as int) / element_size
    };
    if fit <= total {
        fit
    } else {
        total
    }
}

/// The numbers of the rows that matched, in order: row `i` matched where
/// `outcomes[i]` holds.
pub open spec fn matching(outcomes: Seq<bool>) -> Seq<u64>
    decreases outcomes.len(),
{
    if outcomes.len() == 0 {
        Seq::empty()
    } else if outcomes.last() {
        matching(outcomes.drop_last()).push((outcomes.len() - 1) as u64)
    } else {
        matching(outcomes.drop_last())
    }
}

/// The offsets in pages of 100; the last page holds what is left.
pub open spec fn paged(offsets: Seq<u64>, container: Seq<char>) -> Seq<(Seq<u64>, Seq<char>)> {
    Seq::new(
        ((offsets.len() + 99) / 100) as nat,
        |p: int|
            (
                offsets.subrange(
                    p * 100,
                    if p * 100 + 100 <= offsets.len() {
                        p * 100 + 100
                    } else {
                        offsets.len() as int
                    },
                ),
                container,
            ),
    )
}

/// What is wrong with the value of column `i`, if anything.
pub open spec fn fault_at(
    headers: Seq<(Seq<char>, AlbaValue)>,
    row: Seq<AlbaValue>,
    i: int,
) -> Option<ScanError> {
    if i >= row.len() {
        Some(ScanError::MissingColumn)
    } else if row[i].id() != headers[i].1.id() {
        Some(ScanError::TypeMismatch)
    } else {
        None
    }
}

/// The values of a row under the names of their columns.
pub open spec fn named_values(headers: Seq<(Seq<char>, AlbaValue)>, row: Seq<AlbaValue>) -> Seq<
    (Seq<char>, AlbaValue),
> {
    Seq::new(headers.len(), |i: int| (headers[i].0, row[i]))
}

/// The types of the columns.
pub open spec fn column_types(headers: Seq<(Seq<char>, AlbaValue)>) -> Seq<AlbaValue> {
    Seq::new(headers.len(), |i: int| headers[i].1)
}

/// Holds a row to the columns of its container: each column must find a value
/// of its type at its place in the row. The values come back under the names
/// of their columns; the first column that finds none, or one of another
/// type, gives the error.
pub fn typed_columns(headers: &Vec<(String, AlbaTypes)>, row: &Vec<AlbaTypes>) -> (outcome: Result<
    Vec<(String, AlbaTypes)>,
    ScanError,
>)
    ensures
        match outcome {
            Ok(columns) => columns.deep_view() == named_values(
                headers.deep_view(),
                row.deep_view(),
            ) && forall|i: int|
                0 <= i < headers.len() ==> fault_at(headers.deep_view(), row.deep_view(), i)
                    is None,
            Err(e) => exists|k: int|
                0 <= k < headers.len() && fault_at(headers.deep_view(), row.deep_view(), k)
                    == Some(e) && forall|i: int|
                    0 <= i < k ==> fault_at(headers.deep_view(), row.deep_view(), i) is None,
        },
{
    let ghost h = headers.deep_view();
    let ghost r = row.deep_view();
    let mut columns: Vec<(String, AlbaTypes)> = Vec::new();
    let mut i: usize = 0;
    proof {
        assert(columns.deep_view() =~= named_values(h, r).take(0));
    }
    while i < headers.len()
        invariant
            i <= headers.len(),
            h == headers.deep_view(),
            r == row.deep_view(),
            h.len() == headers.len(),
            r.len() == row.len(),
            columns.deep_view() == named_values(h, r).take(i as int),
            forall|j: int| 0 <= j < i ==> fault_at(h, r, j) is None,
        decreases headers.len() - i,
    {
        if i >= row.len() {
            assert(fault_at(h, r, i as int) == Some(ScanError::MissingColumn));
            return Err(ScanError::MissingColumn);
        }
        assert(h[i as int].1 == headers@[i as int].1@);
        assert(r[i as int] == row@[i as int]@);
        if row[i].get_id() != headers[i].1.get_id() {
            assert(fault_at(h, r, i as int) == Some(ScanError::TypeMismatch));
            return Err(ScanError::TypeMismatch);
        }
        let ghost earlier = columns;
        let item = (headers[i].0.clone(), row[i].duplicate());
        let ghost added = item;
        columns.push(item);
        proof {
            lemma_deep_push(earlier, columns, added);
            assert(added.deep_view() == named_values(h, r)[i as int]);
            assert(named_values(h, r).take(i + 1) =~= named_values(h, r).take(i as int).push(
                named_values(h, r)[i as int],
            ));
        }
        i = i + 1;
    }
    assert(named_values(h, r).take(h.len() as int) =~= named_values(h, r));
    Ok(columns)
}

/// The types of the columns of a container, copied in their order.
pub fn types_of(headers: &Vec<(String, AlbaTypes)>) -> (types: Vec<AlbaTypes>)
    ensures
        types.deep_view() == column_types(headers.deep_view()),
{
    let ghost goal = column_types(headers.deep_view());
    let mut types: Vec<AlbaTypes> = Vec::new();
    let mut i: usize = 0;
    proof {
        assert(types.deep_view() =~= goal.take(0));
    }
    while i < headers.len()
        invariant
            i <= headers.len(),
            goal == column_types(headers.deep_view()),
            goal.len() == headers.len(),
            types.deep_view() == goal.take(i as int),
        decreases headers.len() - i,
    {
        let ghost earlier = types;
        let item = headers[i].1.duplicate();
        let ghost added = item;
        types.push(item);
        proof {
            lemma_deep_push(earlier, types, added);
            assert(goal.take(i + 1) =~= goal.take(i as int).push(goal[i as int]));
        }
        i = i + 1;
    }
    assert(goal.take(goal.len() as int) =~= goal);
    types
}

/// One more outcome gives one more matching row, or none.
pub proof fn lemma_matching_push(outcomes: Seq<bool>, matched: bool)
    ensures
        matching(outcomes.push(matched)) == if matched {
            matching(outcomes).push(outcomes.len() as u64)
        } else {
            matching(outcomes)
        },
        matching(outcomes).len() <= outcomes.len(),
    decreases outcomes.len(),
{
    assert(outcomes.push(matched).drop_last() =~= outcomes);
    if outcomes.len() > 0 {
        lemma_matching_push(outcomes.drop_last(), outcomes.last());
        assert(outcomes.drop_last().push(outcomes.last()) =~= outcomes);
    }
}

/// Every page but the last holds 100 offsets, the last one between 1 and
/// 100, and the pages together hold the offsets in their order.
pub proof fn lemma_paged(offsets: Seq<u64>, container: Seq<char>)
    ensures
        paged(offsets, container).len() == (offsets.len() + 99) / 100,
        forall|p: int|
            0 <= p < paged(offsets, container).len() ==> 1 <= (#[trigger] paged(
                offsets,
                container,
            )[p]).0.len() <= 100 && paged(offsets, container)[p].1 == container,
        forall|p: int|
            0 <= p < paged(offsets, container).len() - 1 ==> (#[trigger] paged(
                offsets,
                container,
            )[p]).0.len() == 100,
        forall|i: int|
            0 <= i < offsets.len() ==> paged(offsets, container)[i / 100].0[i % 100]
                == #[trigger] offsets[i],
{
    assert forall|i: int| 0 <= i < offsets.len() implies paged(offsets, container)[i / 100].0[i
        % 100] == #[trigger] offsets[i] by {
        assert(i / 100 * 100 + i % 100 == i);
    }
}

/// A scan in progress: the rows seen so far, and the pages that the matching
/// ones fill.
pub struct RowScan {
    element_size: usize,
    header_offset: usize,
    total_rows: usize,
    rows_per_window: usize,
    next_row: usize,
    page_bucket: Vec<u64>,
    query: Query,
    container_name: String,
    outcomes: Ghost<Seq<bool>>,
    start: Ghost<QueryView>,
}

impl RowScan {
    /// Whether each row seen so far matched.
    pub closed spec fn seen(&self) -> Seq<bool> {
        self.outcomes@
    }

    /// The number of rows in the file.
    pub closed spec fn total(&self) -> int {
        self.total_rows as int
    }

    /// Bytes of one row.
    pub closed spec fn row_bytes(&self) -> int {
        self.element_size as int
    }

    /// Bytes of the file before the first row.
    pub closed spec fn header_bytes(&self) -> int {
        self.header_offset as int
    }

    /// The name of the container.
    pub closed spec fn container(&self) -> Seq<char> {
        self.container_name@
    }

    /// The cursor before any page was added to it.
    pub closed spec fn blank(&self) -> QueryView {
        self.start@
    }

    /// The scan is sound: the sealed pages and the open page hold the rows
    /// that matched so far.
    pub closed spec fn inv(&self) -> bool {
        let m = matching(self.outcomes@);
        let sealed = (m.len() / 100) as int;
        &&& self.element_size > 0
        &&& self.header_offset + self.total_rows * self.element_size <= usize::MAX
        &&& self.next_row == self.outcomes@.len()
        &&& self.next_row <= self.total_rows
        &&& self.rows_per_window == window_rows(self.element_size as int, self.total_rows as int)
        &&& self.start@.pages.len() == 0
        &&& self.query@ == (QueryView {
            pages: paged(m.take(sealed * 100), self.container_name@),
            ..self.start@
        })
        &&& self.page_bucket@ == m.skip(sealed * 100)
    }

    /// The cursor that the scan would end with now.
    pub open spec fn result(&self) -> QueryView {
        QueryView { pages: paged(matching(self.seen()), self.container()), ..self.blank() }
    }

    /// Starts a scan: no row seen yet, no page filled. The cursor will bear
    /// the name `id` and the types of the container's columns.
    pub fn begin(args: SearchArguments, id: String) -> (scan: RowScan)
        requires
            args.element_size > 0,
            args.header_offset <= args.file_size,
        ensures
            scan.inv(),
            scan.seen() == Seq::<bool>::empty(),
            scan.total() == row_count(
                args.file_size as int,
                args.header_offset as int,
                args.element_size as int,
            ),
            scan.row_bytes() == args.element_size,
            scan.header_bytes() == args.header_offset,
            scan.container() == args.container_name@,
            scan.blank() == QueryView::empty(
                column_types(args.container_values.deep_view()).filter(typed()),
                id@,
            ),
    {
        let total_rows: usize = (args.file_size - args.header_offset) / args.element_size;
        let fit: usize = if CHUNK_MATRIX / args.element_size < 1 {
            1
        } else {
            CHUNK_MATRIX / args.element_size
        };
        let rows_per_window: usize = if fit <= total_rows {
            fit
        } else {
            total_rows
        };
        let query = Query::new(types_of(&args.container_values), id);
        let ghost start = query@;
        proof {
            assert(total_rows * args.element_size <= args.file_size - args.header_offset) by (nonlinear_arith)
                requires
                    total_rows == (args.file_size - args.header_offset) / (
                    args.element_size as int),
                    args.element_size > 0,
                    args.file_size - args.header_offset >= 0,
            ;
            let m = matching(Seq::<bool>::empty());
            assert(m.take(0) =~= m);
            assert(m.skip(0) =~= m);
            assert(paged(m, args.container_name@) =~= start.pages);
        }
        RowScan {
            element_size: args.element_size,
            header_offset: args.header_offset,
            total_rows,
            rows_per_window,
            next_row: 0,
            page_bucket: Vec::new(),
            query,
            container_name: args.container_name,
            outcomes: Ghost(Seq::empty()),
            start: Ghost(start),
        }
    }

    /// The part of the file to read next: the rows that follow the rows seen,
    /// as many as one read takes and the file still has. `None` once every row
    /// was seen.
    pub fn next_window(&self) -> (window: Option<Window>)
        requires
            self.inv(),
        ensures
            match window {
                None => self.seen().len() == self.total(),
                Some(w) => {
                    &&& self.seen().len() < self.total()
                    &&& w.first_row == self.seen().len()
                    &&& w.rows >= 1
                    &&& w.rows == if window_rows(self.row_bytes(), self.total()) <= self.total()
                        - self.seen().len() {
                        window_rows(self.row_bytes(), self.total())
                    } else {
                        self.total() - self.seen().len()
                    }
                    &&& w.offset == self.header_bytes() + self.seen().len() * self.row_bytes()
                    &&& w.bytes == w.rows * self.row_bytes()
                },
            },
    {
        if self.next_row >= self.total_rows {
            return None;
        }
        let left: usize = self.total_rows - self.next_row;
        let rows: usize = if self.rows_per_window <= left {
            self.rows_per_window
        } else {
            left
        };
        proof {
            let e = self.element_size as int;
            let t = self.total_rows as int;
            let n = self.next_row as int;
            assert(n * e + rows * e <= t * e) by (nonlinear_arith)
                requires
                    n + rows <= t,
                    e > 0,
                    n >= 0,
                    rows >= 0,
            ;
            assert(n * e >= 0 && rows * e >= 0) by (nonlinear_arith)
                requires
                    e > 0,
                    n >= 0,
                    rows >= 0,
            ;
        }
        Some(
            Window {
                offset: self.header_offset + self.next_row * self.element_size,
                bytes: rows * self.element_size,
                first_row: self.next_row,
                rows,
            },
        )
    }

    /// Takes note of the next row: whether it matched. A matching row goes
    /// into the open page, and a page that is full is sealed.
    pub fn record(&mut self, matched: bool)
        requires
            old(self).inv(),
            old(self).seen().len() < old(self).total(),
        ensures
            final(self).inv(),
            final(self).seen() == old(self).seen().push(matched),
            final(self).total() == old(self).total(),
            final(self).row_bytes() == old(self).row_bytes(),
            final(self).header_bytes() == old(self).header_bytes(),
            final(self).container() == old(self).container(),
            final(self).blank() == old(self).blank(),
    {
        let ghost before = self.outcomes@;
        let ghost m = matching(before);
        let ghost sealed = (m.len() / 100) as int;
        let ghost name = self.container_name@;
        proof {
            lemma_matching_push(before, matched);
        }
        if matched {
            let row: u64 = self.next_row as u64;
            self.page_bucket.push(row);
            let ghost m2 = m.push(row);
            proof {
                assert(self.page_bucket@ =~= m2.skip(sealed * 100));
                assert(m2.take(sealed * 100) =~= m.take(sealed * 100));
            }
            if self.page_bucket.len() >= PAGE_SIZE {
                let mut full: Vec<u64> = Vec::new();
                std::mem::swap(&mut full, &mut self.page_bucket);
                let ghost page = full@;
                let ghost pages_before = self.query@.pages;
                proof {
                    assert(full.deep_view() =~= page);
                    assert(page.len() == 100);
                    assert(self.query@.wf()) by {
                        lemma_paged(m.take(sealed * 100), name);
                    }
                }
                self.query.push((full, self.container_name.clone()));
                proof {
                    let now = m2.take((sealed + 1) * 100);
                    assert(now =~= m2);
                    assert forall|p: int| 0 <= p < sealed + 1 implies self.query@.pages[p]
                        == paged(now, name)[p] by {
                        if p < sealed {
                            assert(pages_before[p] == paged(m.take(sealed * 100), name)[p]);
                            assert(paged(m.take(sealed * 100), name)[p].0 =~= paged(now, name)[p].0);
                        } else {
                            assert(paged(now, name)[p].0 =~= page);
                        }
                    }
                    assert(self.query@.pages =~= paged(now, name));
                    assert(self.page_bucket@ =~= m2.skip((sealed + 1) * 100));
                }
            }
        }
        self.next_row = self.next_row + 1;
        self.outcomes = Ghost(before.push(matched));
    }

    /// Ends the scan: the open page, if it holds anything, becomes the last
    /// page, and the cursor is handed out.
    pub fn finish(self) -> (query: Query)
        requires
            self.inv(),
        ensures
            query@ == self.result(),
            query@.wf(),
    {
        let ghost m = matching(self.outcomes@);
        let ghost sealed = (m.len() / 100) as int;
        let ghost name = self.container_name@;
        let RowScan { page_bucket, query, container_name, .. } = self;
        let mut query = query;
        proof {
            lemma_paged(m.take(sealed * 100), name);
            lemma_paged(m, name);
        }
        if page_bucket.len() > 0 {
            let ghost pages_before = query@.pages;
            let ghost last = page_bucket@;
            proof {
                assert(page_bucket.deep_view() =~= last);
            }
            query.push((page_bucket, container_name));
            proof {
                assert forall|p: int| 0 <= p < sealed + 1 implies query@.pages[p] == paged(
                    m,
                    name,
                )[p] by {
                    if p < sealed {
                        assert(pages_before[p] == paged(m.take(sealed * 100), name)[p]);
                        assert(paged(m.take(sealed * 100), name)[p].0 =~= paged(m, name)[p].0);
                    } else {
                        assert(paged(m, name)[p].0 =~= last);
                    }
                }
                assert(query@.pages =~= paged(m, name));
            }
        } else {
            proof {
                assert(m.take(sealed * 100) =~= m);
            }
        }
        query
    }
}

/// Scans a whole table whose rows were judged already: `outcomes[i]` says
/// whether row `i` matched. The cursor holds the numbers of the matching rows
/// in pages of 100, under the name of the container.
pub fn search(args: SearchArguments, id: String, outcomes: &Vec<bool>) -> (query: Query)
    requires
        args.element_size > 0,
        args.header_offset <= args.file_size,
        outcomes.len() == row_count(
            args.file_size as int,
            args.header_offset as int,
            args.element_size as int,
        ),
    ensures
        query@.wf(),
        query@ == (QueryView {
            pages: paged(matching(outcomes@), args.container_name@),
            ..QueryView::empty(
                column_types(args.container_values.deep_view()).filter(typed()),
                id@,
            )
        }),
{
    let ghost name = args.container_name@;
    let ghost blank = QueryView::empty(
        column_types(args.container_values.deep_view()).filter(typed()),
        id@,
    );
    let mut scan = RowScan::begin(args, id);
    proof {
        assert(outcomes@.take(0) =~= Seq::<bool>::empty());
    }
    loop
        invariant
            scan.inv(),
            scan.total() == outcomes.len(),
            scan.seen() == outcomes@.take(scan.seen().len() as int),
            scan.seen().len() <= outcomes.len(),
            scan.container() == name,
            scan.blank() == blank,
        ensures
            scan.inv(),
            scan.seen() == outcomes@,
            scan.container() == name,
            scan.blank() == blank,
        decreases outcomes.len() - scan.seen().len(),
    {
        match scan.next_window() {
            None => {
                proof {
                    assert(outcomes@.take(outcomes.len() as int) =~= outcomes@);
                }
                break ;
            },
            Some(window) => {
                let mut i: usize = 0;
                while i < window.rows
                    invariant
                        i <= window.rows,
                        scan.inv(),
                        scan.total() == outcomes.len(),
                        scan.seen().len() == window.first_row + i,
                        window.first_row + window.rows <= outcomes.len(),
                        scan.seen() == outcomes@.take(scan.seen().len() as int),
                        scan.container() == name,
                        scan.blank() == blank,
                    decreases window.rows - i,
                {
                    let matched = outcomes[window.first_row + i];
                    proof {
                        assert(outcomes@.take(window.first_row + i + 1) =~= outcomes@.take(
                            window.first_row + i,
                        ).push(matched));
                    }
                    scan.record(matched);
                    i = i + 1;
                }
            },
        }
    }
    scan.finish()
}

} // verus!
